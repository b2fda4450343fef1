//! The `.env` format: `KEY=VALUE` lines, an optional `export ` in front,
//! values in matching double or single quotes, `#` comments and blank lines.
use vstd::prelude::*;
use crate::text::{chars_of, drop_white_space, find_char, first_char, is_white_space, lemma_first_char, skip_white_space, string_of, trim, trim_end, trim_start, trim_window};
use crate::var_map::VarMap;

verus! {

/// The lines of `s`: what lies between its newline characters.
pub open spec fn lines_of(s: Seq<char>) -> Seq<Seq<char>>
    decreases s.len(),
{
    if s.len() == 0 {
        seq![Seq::empty()]
    } else {
        let ls = lines_of(s.drop_last());
        if s.last() == '\n' {
            ls.push(Seq::empty())
        } else {
            ls.update(ls.len() - 1, ls.last().push(s.last()))
        }
    }
}

/// The prefix `export ` that a binding may carry.
pub open spec fn export_prefix() -> Seq<char> {
    seq!['e', 'x', 'p', 'o', 'r', 't', ' ']
}

/// `line` without a leading `export `.
pub open spec fn strip_export(line: Seq<char>) -> Seq<char> {
    if line.len() >= 7 && line.take(7) == export_prefix() {
        line.skip(7)
    } else {
        line
    }
}

/// A value without one pair of matching surrounding quotes.
pub open spec fn unquote(v: Seq<char>) -> Seq<char> {
    if v.len() >= 2 && v[0] == '"' && v.last() == '"' {
        v.subrange(1, v.len() - 1)
    } else if v.len() >= 2 && v[0] == '\'' && v.last() == '\'' {
        v.subrange(1, v.len() - 1)
    } else {
        v
    }
}

/// Whether a line is blank or a comment.
pub open spec fn skipped_line(line: Seq<char>) -> bool {
    trim(line).len() == 0 || (trim_start(line).len() > 0 && trim_start(line)[0] == '#')
}

/// The binding that a line holds: the name before its first `=` and the
/// value after it, both trimmed, the value without matching quotes.
pub open spec fn parse_line(line: Seq<char>) -> Option<(Seq<char>, Seq<char>)> {
    if skipped_line(line) {
        None
    } else {
        let body = trim(strip_export(line));
        let eq = first_char(body, '=');
        if eq == body.len() {
            None
        } else {
            Some((trim(body.take(eq)), unquote(trim(body.skip(eq + 1)))))
        }
    }
}

/// The bindings of a sequence of lines, a later line replacing an earlier
/// binding of the same name.
pub open spec fn bindings_of(lines: Seq<Seq<char>>) -> Map<Seq<char>, Seq<char>>
    decreases lines.len(),
{
    if lines.len() == 0 {
        Map::empty()
    } else {
        let earlier = bindings_of(lines.drop_last());
        match parse_line(lines.last()) {
            Some(kv) => earlier.insert(kv.0, kv.1),
            None => earlier,
        }
    }
}

/// The variables that a `.env` text defines.
pub open spec fn env_file_vars(content: Seq<char>) -> Map<Seq<char>, Seq<char>> {
    bindings_of(lines_of(content))
}

/// Trimming keeps a text that starts with a character other than white space
/// non-empty.
proof fn lemma_trim_end_keeps_first(s: Seq<char>)
    requires
        s.len() > 0,
        !is_white_space(s[0]),
    ensures
        trim_end(s).len() > 0,
        trim_end(s)[0] == s[0],
    decreases s.len(),
{
    if is_white_space(s.last()) {
        assert(s.len() > 1);
        lemma_trim_end_keeps_first(s.drop_last());
    }
}

/// A leading `export ` changes nothing of what a binding line binds: for
/// every line that is not blank or a comment and does not itself start with
/// `export `, the line with `export ` in front binds the same name to the
/// same value, quotes handled alike.
pub proof fn lemma_export_prefix_ignored(line: Seq<char>)
    requires
        !skipped_line(line),
        !(line.len() >= 7 && line.take(7) == export_prefix()),
    ensures
        parse_line(export_prefix() + line) == parse_line(line),
{
    let e = export_prefix() + line;
    assert(e[0] == 'e');
    assert(trim_start(e) == e);
    lemma_trim_end_keeps_first(e);
    assert(!skipped_line(e));
    assert(e.take(7) =~= export_prefix());
    assert(e.skip(7) =~= line);
}

/// A line `name="value"` or `name='value'`, the name without `=`, without
/// white space at its ends, not starting with `#` or `export `, binds the
/// name to exactly the text between the quotes, and so does the same line
/// with `export ` in front.
pub proof fn lemma_quoted_value_binds_inner_text(name: Seq<char>, value: Seq<char>, quote: char)
    requires
        quote == '"' || quote == '\'',
        name.len() > 0,
        !is_white_space(name[0]),
        !is_white_space(name.last()),
        name[0] != '#',
        !name.contains('='),
        !(name.len() >= 7 && name.take(7) == export_prefix()),
    ensures
        parse_line(name + seq!['='] + seq![quote] + value + seq![quote]) == Some((name, value)),
        parse_line(export_prefix() + (name + seq!['='] + seq![quote] + value + seq![quote])) == Some(
            (name, value),
        ),
{
    let w = seq![quote] + value + seq![quote];
    let line = name + seq!['='] + w;
    assert(line[0] == name[0]);
    assert(trim_start(line) == line);
    assert(line.last() == quote);
    assert(trim_end(line) == line);
    assert(trim(line) == line);
    assert(!skipped_line(line));
    if line.len() >= 7 && line.take(7) == export_prefix() {
        if name.len() >= 7 {
            assert(name.take(7) =~= line.take(7));
        } else {
            assert(line.take(7)[name.len() as int] == '=');
            assert(export_prefix()[name.len() as int] != '=');
        }
    }
    assert(strip_export(line) == line);
    assert forall|j: int| 0 <= j < name.len() implies line[j] != '=' by {
        assert(line[j] == name[j]);
        if name[j] == '=' {
            assert(name.contains('='));
        }
    }
    lemma_first_char(line, '=', name.len() as int);
    assert(line.take(name.len() as int) =~= name);
    assert(trim_start(name) == name);
    assert(trim_end(name) == name);
    assert(line.skip(name.len() as int + 1) =~= w);
    assert(w[0] == quote);
    assert(trim_start(w) == w);
    assert(w.last() == quote);
    assert(trim_end(w) == w);
    assert(w.subrange(1, w.len() - 1) =~= value);
    assert(unquote(w) == value);
    let body = trim(strip_export(line));
    assert(body == line);
    let eq = first_char(body, '=');
    assert(eq == name.len());
    assert(eq != body.len());
    assert(trim(name) == name);
    assert(trim(body.take(eq)) == name);
    assert(trim(w) == w);
    assert(unquote(trim(body.skip(eq + 1))) == value);
    assert(parse_line(line) == Some((name, value)));
    lemma_export_prefix_ignored(line);
    assert(line =~= name + seq!['='] + seq![quote] + value + seq![quote]);
}

/// A line `name=text`, the name as in a quoted binding and the text not
/// ending in white space, binds the name to the trimmed text without one
/// pair of matching quotes.
proof fn lemma_binding_line(name: Seq<char>, w: Seq<char>)
    requires
        name.len() > 0,
        !is_white_space(name[0]),
        !is_white_space(name.last()),
        name[0] != '#',
        !name.contains('='),
        !(name.len() >= 7 && name.take(7) == export_prefix()),
        w.len() == 0 || !is_white_space(w.last()),
    ensures
        parse_line(name + seq!['='] + w) == Some((name, unquote(trim(w)))),
{
    let line = name + seq!['='] + w;
    assert(line[0] == name[0]);
    assert(trim_start(line) == line);
    if w.len() == 0 {
        assert(line.last() == '=');
    } else {
        assert(line.last() == w.last());
    }
    assert(trim_end(line) == line);
    assert(!skipped_line(line));
    if line.len() >= 7 && line.take(7) == export_prefix() {
        if name.len() >= 7 {
            assert(name.take(7) =~= line.take(7));
        } else {
            assert(line.take(7)[name.len() as int] == '=');
            assert(export_prefix()[name.len() as int] != '=');
        }
    }
    assert(strip_export(line) == line);
    assert forall|j: int| 0 <= j < name.len() implies line[j] != '=' by {
        assert(line[j] == name[j]);
        if name[j] == '=' {
            assert(name.contains('='));
        }
    }
    lemma_first_char(line, '=', name.len() as int);
    assert(line.take(name.len() as int) =~= name);
    assert(trim_start(name) == name);
    assert(trim_end(name) == name);
    assert(line.skip(name.len() as int + 1) =~= w);
    let body = trim(strip_export(line));
    assert(body == line);
    let eq = first_char(body, '=');
    assert(eq == name.len());
    assert(trim(body.take(eq)) == name);
}

/// A line `name=text` binds the name to the text as written, `=` signs in
/// it included, where the text has no white space at its ends and is not
/// wrapped in matching quotes: the split is at the first `=`.
pub proof fn lemma_plain_value_binds_text(name: Seq<char>, w: Seq<char>)
    requires
        name.len() > 0,
        !is_white_space(name[0]),
        !is_white_space(name.last()),
        name[0] != '#',
        !name.contains('='),
        !(name.len() >= 7 && name.take(7) == export_prefix()),
        w.len() == 0 || (!is_white_space(w[0]) && !is_white_space(w.last())),
        !(w.len() >= 2 && ((w[0] == '"' && w.last() == '"') || (w[0] == '\'' && w.last() == '\''))),
    ensures
        parse_line(name + seq!['='] + w) == Some((name, w)),
{
    lemma_binding_line(name, w);
    if w.len() > 0 {
        assert(trim_start(w) == w);
        assert(trim_end(w) == w);
    } else {
        assert(trim(w) == w);
    }
}

/// White space alone, and a comment (`#` after any white space), bind
/// nothing, whatever follows the `#`.
pub proof fn lemma_blank_and_comment_lines_bind_nothing(ws: Seq<char>, rest: Seq<char>)
    requires
        forall|i: int| 0 <= i < ws.len() ==> is_white_space(#[trigger] ws[i]),
    ensures
        parse_line(ws) is None,
        parse_line(ws + seq!['#'] + rest) is None,
    decreases ws.len(),
{
    if ws.len() > 0 {
        lemma_blank_and_comment_lines_bind_nothing(ws.drop_first(), rest);
        assert((ws + seq!['#'] + rest).drop_first() =~= ws.drop_first() + seq!['#'] + rest);
        assert(trim_start(ws) == trim_start(ws.drop_first()));
        assert(trim_start(ws + seq!['#'] + rest) == trim_start(ws.drop_first() + seq!['#'] + rest));
    } else {
        assert(ws + seq!['#'] + rest =~= seq!['#'] + rest);
        let l = seq!['#'] + rest;
        assert(l[0] == '#');
        assert(trim_start(l) == l);
        lemma_trim_end_keeps_first(l);
    }
}

/// Whether `chars[lo..hi]` starts with `export `.
fn has_export_prefix(chars: &Vec<char>, lo: usize, hi: usize) -> (res: bool)
    requires
        lo <= hi <= chars@.len(),
    ensures
        res == (hi - lo >= 7 && chars@.subrange(lo as int, hi as int).take(7) == export_prefix()),
{
    proof {
        if hi - lo >= 7 {
            assert(chars@.subrange(lo as int, hi as int).take(7) =~= chars@.subrange(
                lo as int,
                lo + 7,
            ));
        }
    }
    if hi - lo < 7 {
        return false;
    }
    let res = chars[lo] == 'e' && chars[lo + 1] == 'x' && chars[lo + 2] == 'p' && chars[lo + 3]
        == 'o' && chars[lo + 4] == 'r' && chars[lo + 5] == 't' && chars[lo + 6] == ' ';
    proof {
        if res {
            assert(chars@.subrange(lo as int, lo + 7) =~= export_prefix());
        } else {
            let w = chars@.subrange(lo as int, lo + 7);
            if w == export_prefix() {
                assert(w[0] == 'e' && w[1] == 'x' && w[2] == 'p' && w[3] == 'o' && w[4] == 'r'
                    && w[5] == 't' && w[6] == ' ');
            }
        }
    }
    res
}

/// The binding held by the line `chars[lo..hi]`.
fn parse_line_at(chars: &Vec<char>, lo: usize, hi: usize) -> (res: Option<(String, String)>)
    requires
        lo <= hi <= chars@.len(),
    ensures
        match res {
            Some(kv) => parse_line(chars@.subrange(lo as int, hi as int)) == Some((kv.0@, kv.1@)),
            None => parse_line(chars@.subrange(lo as int, hi as int)) is None,
        },
{
    let ghost line = chars@.subrange(lo as int, hi as int);
    let a = skip_white_space(chars, lo, hi);
    let b = drop_white_space(chars, a, hi);
    if a == b {
        return None;
    }
    if chars[a] == '#' {
        return None;
    }
    assert(!skipped_line(line));
    let body_lo = if has_export_prefix(chars, lo, hi) {
        lo + 7
    } else {
        lo
    };
    proof {
        assert(strip_export(line) =~= chars@.subrange(body_lo as int, hi as int));
    }
    let (c, d) = trim_window(chars, body_lo, hi);
    let ghost body = chars@.subrange(c as int, d as int);
    let e = find_char(chars, c, d, '=');
    if e == d {
        return None;
    }
    proof {
        assert(body.take(e - c) =~= chars@.subrange(c as int, e as int));
        assert(body.skip(e - c + 1) =~= chars@.subrange(e + 1, d as int));
    }
    let (k1, k2) = trim_window(chars, c, e);
    let (v1, v2) = trim_window(chars, e + 1, d);
    let ghost v = chars@.subrange(v1 as int, v2 as int);
    let quoted = v2 - v1 >= 2 && ((chars[v1] == '"' && chars[v2 - 1] == '"') || (chars[v1] == '\''
        && chars[v2 - 1] == '\''));
    let key = string_of(chars, k1, k2);
    let value = if quoted {
        proof {
            assert(v.subrange(1, v.len() - 1) =~= chars@.subrange(v1 + 1, v2 - 1));
        }
        string_of(chars, v1 + 1, v2 - 1)
    } else {
        string_of(chars, v1, v2)
    };
    Some((key, value))
}

/// The variables that the text of a `.env` file defines: each non-blank line
/// that is not a `#` comment and holds an `=` binds the trimmed text before
/// its first `=` (after an optional leading `export `) to the trimmed text
/// after it, without one pair of matching double or single quotes. A later
/// binding of a name replaces an earlier one.
pub fn parse_env_file(content: &str) -> (res: VarMap<String>)
    ensures
        res@ == env_file_vars(content@),
{
    let chars = chars_of(content);
    let n = chars.len();
    let mut res: VarMap<String> = VarMap::new();
    let mut start: usize = 0;
    let mut i: usize = 0;
    let ghost mut done: Seq<Seq<char>> = Seq::empty();
    proof {
        assert(chars@.take(0) =~= Seq::<char>::empty());
        assert(chars@.subrange(0, 0) =~= Seq::<char>::empty());
        assert(lines_of(Seq::<char>::empty()) == seq![Seq::<char>::empty()]);
        assert(done.push(Seq::<char>::empty()) =~= seq![Seq::<char>::empty()]);
    }
    while i < n
        invariant
            n == chars@.len(),
            0 <= start <= i <= n,
            lines_of(chars@.take(i as int)) == done.push(chars@.subrange(start as int, i as int)),
            res@ == bindings_of(done),
        decreases n - i,
    {
        proof {
            assert(chars@.take(i + 1).drop_last() =~= chars@.take(i as int));
            assert(chars@.take(i + 1).last() == chars@[i as int]);
        }
        if chars[i] == '\n' {
            let parsed = parse_line_at(&chars, start, i);
            let ghost line = chars@.subrange(start as int, i as int);
            proof {
                assert(done.push(line).drop_last() =~= done);
            }
            match parsed {
                Some(kv) => {
                    res.insert(kv.0, kv.1);
                },
                None => {},
            }
            proof {
                done = done.push(line);
                assert(chars@.subrange(i + 1, i + 1) =~= Seq::<char>::empty());
            }
            start = i + 1;
        } else {
            proof {
                let ls = done.push(chars@.subrange(start as int, i as int));
                assert(ls.last().push(chars@[i as int]) =~= chars@.subrange(start as int, i + 1));
                assert(ls.update(ls.len() - 1, ls.last().push(chars@[i as int])) =~= done.push(
                    chars@.subrange(start as int, i + 1),
                ));
            }
        }
        i = i + 1;
    }
    let parsed = parse_line_at(&chars, start, n);
    let ghost line = chars@.subrange(start as int, n as int);
    proof {
        assert(chars@.take(n as int) =~= content@);
        assert(done.push(line).drop_last() =~= done);
    }
    match parsed {
        Some(kv) => {
            res.insert(kv.0, kv.1);
        },
        None => {},
    }
    res
}

} // verus!
