//! Turtle string literals: escaping for write-back, lexical values of written literals, and
//! whitespace normalisation of terms.
use vstd::prelude::*;
use crate::text::{
    lemma_next_ws_bounds, lemma_skip_ws_bounds, next_ws, occurs, occurs_at, push_all, skip_ws,
    slice_chars, starts_with, token_after_exec,
};

verus! {

/// Escape sequence written for one character of a Turtle string body.
pub open spec fn turtle_escape_char(c: char) -> Seq<char> {
    if c == '\\' {
        seq!['\\', '\\']
    } else if c == '"' {
        seq!['\\', '"']
    } else if c == '\n' {
        seq!['\\', 'n']
    } else if c == '\r' {
        seq!['\\', 'r']
    } else if c == '\t' {
        seq!['\\', 't']
    } else {
        seq![c]
    }
}

/// Body of a double-quoted Turtle string for `s` (`escape_turtle_string`).
pub open spec fn escape_turtle(s: Seq<char>) -> Seq<char>
    decreases s.len(),
{
    if s.len() == 0 {
        Seq::empty()
    } else {
        escape_turtle(s.drop_last()) + turtle_escape_char(s.last())
    }
}

/// Escape `\`, `"`, newline, carriage return and tab for a double-quoted Turtle string.
pub fn escape_turtle_string(value: &[char]) -> (r: Vec<char>)
    ensures
        r@ == escape_turtle(value@),
{
    let mut out: Vec<char> = Vec::new();
    let mut i: usize = 0;
    while i < value.len()
        invariant
            0 <= i <= value.len(),
            out@ == escape_turtle(value@.take(i as int)),
        decreases value.len() - i,
    {
        let c = value[i];
        assert(value@.take(i + 1).drop_last() =~= value@.take(i as int));
        assert(value@.take(i + 1).last() == c);
        if c == '\\' {
            out.push('\\');
            out.push('\\');
        } else if c == '"' {
            out.push('\\');
            out.push('"');
        } else if c == '\n' {
            out.push('\\');
            out.push('n');
        } else if c == '\r' {
            out.push('\\');
            out.push('r');
        } else if c == '\t' {
            out.push('\\');
            out.push('t');
        } else {
            out.push(c);
        }
        assert(out@ =~= escape_turtle(value@.take(i as int)) + turtle_escape_char(c));
        i += 1;
    }
    assert(value@.take(i as int) =~= value@);
    out
}

/// Character denoted by the escape `\c` in a Turtle string.
pub open spec fn echar(c: char) -> Seq<char> {
    if c == 'n' {
        seq!['\n']
    } else if c == 't' {
        seq!['\t']
    } else if c == 'r' {
        seq!['\r']
    } else if c == 'b' {
        seq!['\u{8}']
    } else if c == 'f' {
        seq!['\u{c}']
    } else if c == '"' || c == '\'' || c == '\\' {
        seq![c]
    } else {
        seq!['\\', c]
    }
}

/// Turtle string body with its escapes resolved.
pub open spec fn unescape(s: Seq<char>) -> Seq<char>
    decreases s.len(),
{
    if s.len() == 0 {
        Seq::empty()
    } else if s[0] == '\\' && s.len() >= 2 {
        echar(s[1]) + unescape(s.skip(2))
    } else {
        seq![s[0]] + unescape(s.drop_first())
    }
}

fn unescape_exec(s: &[char]) -> (r: Vec<char>)
    ensures
        r@ == unescape(s@),
{
    let mut out: Vec<char> = Vec::new();
    let mut i: usize = 0;
    assert(s@.skip(0) =~= s@);
    while i < s.len()
        invariant
            0 <= i <= s.len(),
            out@ + unescape(s@.skip(i as int)) == unescape(s@),
        decreases s.len() - i,
    {
        let ghost rest = s@.skip(i as int);
        let ghost before = out@;
        if s[i] == '\\' && i + 1 < s.len() {
            let c = s[i + 1];
            if c == 'n' {
                out.push('\n');
            } else if c == 't' {
                out.push('\t');
            } else if c == 'r' {
                out.push('\r');
            } else if c == 'b' {
                out.push('\u{8}');
            } else if c == 'f' {
                out.push('\u{c}');
            } else if c == '"' || c == '\'' || c == '\\' {
                out.push(c);
            } else {
                out.push('\\');
                out.push(c);
            }
            assert(rest[1] == c);
            assert(rest.skip(2) =~= s@.skip(i + 2));
            assert(out@ =~= before + echar(c));
            assert(out@ + unescape(s@.skip(i + 2)) =~= before + (echar(c) + unescape(rest.skip(2))));
            i += 2;
        } else {
            out.push(s[i]);
            assert(rest.drop_first() =~= s@.skip(i + 1));
            assert(out@ + unescape(s@.skip(i + 1)) =~= before + (seq![s@[i as int]] + unescape(
                rest.drop_first(),
            )));
            i += 1;
        }
    }
    assert(s@.skip(i as int) =~= Seq::<char>::empty());
    assert(out@ + Seq::<char>::empty() =~= out@);
    out
}

/// Index of the closing delimiter of a string body scanned from `i` (escapes skipped): the
/// first `q` for a short string, the first `qqq` for a long one.
pub open spec fn string_close(s: Seq<char>, i: int, q: char, long: bool) -> Option<int>
    decreases s.len() - i,
{
    if i < 0 || i >= s.len() {
        None
    } else if s[i] == '\\' {
        if i + 2 > s.len() {
            None
        } else {
            string_close(s, i + 2, q, long)
        }
    } else if long && occurs_at(s, i, seq![q, q, q]) {
        Some(i)
    } else if !long && s[i] == q {
        Some(i)
    } else {
        string_close(s, i + 1, q, long)
    }
}

proof fn lemma_string_close_range(s: Seq<char>, i: int, q: char, long: bool)
    requires
        0 <= i,
    ensures
        string_close(s, i, q, long) matches Some(c) ==> i <= c < s.len() && (long ==> c + 3
            <= s.len()),
    decreases s.len() - i,
{
    if i < s.len() {
        if i + 2 <= s.len() {
            lemma_string_close_range(s, i + 2, q, long);
        }
        lemma_string_close_range(s, i + 1, q, long);
    }
}

/// Lexical value of a Turtle literal term (`"…"`, `'…'`, `"""…"""` or `'''…'''`, optionally
/// followed by `@lang` or `^^datatype`), escapes resolved; `None` for any other term.
pub open spec fn literal_value(s: Seq<char>) -> Option<Seq<char>> {
    if s.len() == 0 || (s[0] != '"' && s[0] != '\'') {
        None
    } else {
        let q = s[0];
        let long = occurs_at(s, 0, seq![q, q, q]);
        let open: int = if long { 3 } else { 1 };
        match string_close(s, open, q, long) {
            None => None,
            Some(c) => {
                let suffix = s.skip(c + open);
                if suffix.len() == 0 || suffix[0] == '@' || starts_with(suffix, seq!['^', '^']) {
                    Some(unescape(s.subrange(open, c)))
                } else {
                    None
                }
            },
        }
    }
}

/// Lexical value of a literal term (`turtle_literal_lexical_value`).
pub fn literal_value_exec(s: &[char]) -> (r: Option<Vec<char>>)
    ensures
        match r {
            Some(v) => literal_value(s@) == Some(v@),
            None => literal_value(s@) is None,
        },
{
    if s.len() == 0 || (s[0] != '"' && s[0] != '\'') {
        return None;
    }
    let q = s[0];
    let three = [q, q, q];
    assert(three@ == seq![q, q, q]);
    let long = occurs(s, 0, &three);
    let open: usize = if long { 3 } else { 1 };
    proof {
        lemma_string_close_range(s@, open as int, q, long);
    }
    let mut i: usize = open;
    let mut close: Option<usize> = None;
    while i < s.len() && close.is_none()
        invariant
            open <= i <= s.len(),
            close is None ==> string_close(s@, open as int, q, long) == string_close(
                s@,
                i as int,
                q,
                long,
            ),
            close matches Some(c) ==> string_close(s@, open as int, q, long) == Some(c as int),
            three@ == seq![q, q, q],
        decreases s.len() - i + (if close is None { 1int } else { 0int }),
    {
        if s[i] == '\\' {
            if i + 1 >= s.len() {
                i = s.len();
            } else {
                i = i + 2;
            }
        } else if long && occurs(s, i, &three) {
            close = Some(i);
        } else if !long && s[i] == q {
            close = Some(i);
        } else {
            i = i + 1;
        }
    }
    match close {
        None => {
            assert(string_close(s@, i as int, q, long) is None);
            None
        },
        Some(c) => {
            let after = c + open;
            let suffix = slice_chars(s, after, s.len());
            let ok = suffix.len() == 0 || suffix[0] == '@' || (suffix.len() >= 2 && suffix[0] == '^'
                && suffix[1] == '^');
            assert(starts_with(suffix@, seq!['^', '^']) <==> (suffix@.len() >= 2 && suffix@[0] == '^'
                && suffix@[1] == '^')) by {
                if suffix@.len() >= 2 {
                    assert(suffix@.subrange(0, 2) =~= seq![suffix@[0], suffix@[1]]);
                }
            }
            if ok {
                let body = slice_chars(s, open, c);
                Some(unescape_exec(body.as_slice()))
            } else {
                None
            }
        },
    }
}

/// Whitespace-separated words of `s` from `i`, each preceded by one space unless `first`
/// (`split_whitespace().collect::<Vec<_>>().join(" ")`).
pub open spec fn norm_from(s: Seq<char>, i: int, first: bool) -> Seq<char>
    decreases s.len() - i,
{
    if i < 0 || i > s.len() {
        Seq::empty()
    } else {
        let a = skip_ws(s, i);
        if a >= s.len() {
            Seq::empty()
        } else {
            let b = next_ws(s, a);
            proof {
                lemma_skip_ws_bounds(s, i);
                lemma_next_ws_bounds(s, a + 1);
                assert(next_ws(s, a) == next_ws(s, a + 1));
            }
            (if first {
                Seq::empty()
            } else {
                seq![' ']
            }) + s.subrange(a, b) + norm_from(s, b, false)
        }
    }
}

/// `s` with its words separated by single spaces (`normalize_ws`).
pub open spec fn normalize_ws(s: Seq<char>) -> Seq<char> {
    norm_from(s, 0, true)
}

/// Words of `s` joined by single spaces.
pub fn normalize_ws_exec(s: &[char]) -> (r: Vec<char>)
    ensures
        r@ == normalize_ws(s@),
{
    let mut out: Vec<char> = Vec::new();
    let mut i: usize = 0;
    let mut first = true;
    let mut done = false;
    while !done
        invariant
            0 <= i <= s.len(),
            out@ + norm_from(s@, i as int, first) == normalize_ws(s@),
            done ==> norm_from(s@, i as int, first) == Seq::<char>::empty(),
        decreases s.len() + 1 - i + (if done { 0int } else { 1int }),
    {
        match token_after_exec(s, i) {
            None => {
                done = true;
            },
            Some((a, b)) => {
                let ghost before = out@;
                if !first {
                    out.push(' ');
                }
                let w = slice_chars(s, a, b);
                push_all(&mut out, w.as_slice());
                assert(out@ + norm_from(s@, b as int, false) =~= before + ((if first {
                    Seq::empty()
                } else {
                    seq![' ']
                }) + s@.subrange(a as int, b as int) + norm_from(s@, b as int, false)));
                i = b;
                first = false;
            },
        }
    }
    assert(out@ + Seq::<char>::empty() =~= out@);
    out
}

} // verus!
