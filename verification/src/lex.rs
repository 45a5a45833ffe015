//! A small Turtle lexer: which characters lie inside comments, string literals and IRIs,
//! and the scanners built on it (statement ends, bracket/paren matching, predicate tokens).
use vstd::prelude::*;
use crate::text::{ascii_alnum, is_ascii_alnum, is_ascii_ws, occurs, occurs_at};

verus! {

/// Lexical context of a scan position.
#[derive(PartialEq, Eq, Structural, Clone, Copy, Debug)]
pub enum Lex {
    /// Ordinary Turtle syntax.
    Code,
    /// A `#` comment, up to the end of the line.
    Comment,
    /// An `<...>` IRI.
    Iri,
    /// `"..."`.
    ShortDouble,
    /// `'...'`.
    ShortSingle,
    /// `"""..."""`.
    LongDouble,
    /// `'''...'''`.
    LongSingle,
}

/// Inside a string literal of any form.
pub open spec fn is_string(l: Lex) -> bool {
    l == Lex::ShortDouble || l == Lex::ShortSingle || l == Lex::LongDouble || l == Lex::LongSingle
}

/// One lexer step from index `i` in context `l`: the next index and context.
///
/// Comments end after a newline, IRIs after `>`. In strings a backslash escapes the next
/// character; short strings end after their quote, long strings after three quotes. In code,
/// `"""`, `'''`, `"`, `'`, `#` and `<` open the corresponding construct; any other character
/// is a single step.
pub open spec fn lex_step(t: Seq<char>, i: int, l: Lex) -> (int, Lex) {
    match l {
        Lex::Comment => if t[i] == '\n' {
            (i + 1, Lex::Code)
        } else {
            (i + 1, Lex::Comment)
        },
        Lex::Iri => if t[i] == '>' {
            (i + 1, Lex::Code)
        } else {
            (i + 1, Lex::Iri)
        },
        Lex::Code => if occurs_at(t, i, seq!['"', '"', '"']) {
            (i + 3, Lex::LongDouble)
        } else if occurs_at(t, i, seq!['\'', '\'', '\'']) {
            (i + 3, Lex::LongSingle)
        } else if t[i] == '"' {
            (i + 1, Lex::ShortDouble)
        } else if t[i] == '\'' {
            (i + 1, Lex::ShortSingle)
        } else if t[i] == '#' {
            (i + 1, Lex::Comment)
        } else if t[i] == '<' {
            (i + 1, Lex::Iri)
        } else {
            (i + 1, Lex::Code)
        },
        _ => if t[i] == '\\' {
            (if i + 2 <= t.len() { i + 2 } else { t.len() as int }, l)
        } else if l == Lex::LongDouble && occurs_at(t, i, seq!['"', '"', '"']) {
            (i + 3, Lex::Code)
        } else if l == Lex::LongSingle && occurs_at(t, i, seq!['\'', '\'', '\'']) {
            (i + 3, Lex::Code)
        } else if (l == Lex::ShortDouble && t[i] == '"') || (l == Lex::ShortSingle && t[i]
            == '\'') {
            (i + 1, Lex::Code)
        } else {
            (i + 1, l)
        },
    }
}

/// A code-context character that opens a comment, string or IRI.
pub open spec fn is_lex_start(t: Seq<char>, i: int) -> bool {
    0 <= i < t.len() && (t[i] == '#' || t[i] == '"' || t[i] == '\'' || t[i] == '<')
}

pub proof fn lemma_lex_step_advances(t: Seq<char>, i: int, l: Lex)
    requires
        0 <= i < t.len(),
    ensures
        i < lex_step(t, i, l).0 <= t.len(),
{
}

pub fn lex_step_exec(t: &[char], i: usize, l: Lex) -> (r: (usize, Lex))
    requires
        i < t.len(),
    ensures
        (r.0 as int, r.1) == lex_step(t@, i as int, l),
        i < r.0 <= t.len(),
{
    let c = t[i];
    let three_d: [char; 3] = ['"', '"', '"'];
    let three_s: [char; 3] = ['\'', '\'', '\''];
    assert(three_d@ == seq!['"', '"', '"']);
    assert(three_s@ == seq!['\'', '\'', '\'']);
    match l {
        Lex::Comment => if c == '\n' {
            (i + 1, Lex::Code)
        } else {
            (i + 1, Lex::Comment)
        },
        Lex::Iri => if c == '>' {
            (i + 1, Lex::Code)
        } else {
            (i + 1, Lex::Iri)
        },
        Lex::Code => {
            if occurs(t, i, &three_d) {
                (i + 3, Lex::LongDouble)
            } else if occurs(t, i, &three_s) {
                (i + 3, Lex::LongSingle)
            } else if c == '"' {
                (i + 1, Lex::ShortDouble)
            } else if c == '\'' {
                (i + 1, Lex::ShortSingle)
            } else if c == '#' {
                (i + 1, Lex::Comment)
            } else if c == '<' {
                (i + 1, Lex::Iri)
            } else {
                (i + 1, Lex::Code)
            }
        },
        _ => {
            if c == '\\' {
                (if i + 1 < t.len() { i + 2 } else { t.len() }, l)
            } else if l == Lex::LongDouble && occurs(t, i, &three_d) {
                (i + 3, Lex::Code)
            } else if l == Lex::LongSingle && occurs(t, i, &three_s) {
                (i + 3, Lex::Code)
            } else if (l == Lex::ShortDouble && c == '"') || (l == Lex::ShortSingle && c
                == '\'') {
                (i + 1, Lex::Code)
            } else {
                (i + 1, l)
            }
        },
    }
}

/// Lexical context at position `p` when scanning `t` from index `i` in context `l`:
/// steps are taken while they start before `p`.
pub open spec fn lex_at(t: Seq<char>, i: int, l: Lex, p: int) -> Lex
    decreases t.len() - i,
{
    if i < 0 || i >= p || i >= t.len() {
        l
    } else {
        let (j, m) = lex_step(t, i, l);
        lex_at(t, j, m, p)
    }
}

/// `p` lies inside a `#` comment or a string literal (scanning the whole text from its start).
pub open spec fn in_comment_or_string(t: Seq<char>, p: int) -> bool {
    let l = lex_at(t, 0, Lex::Code, p);
    l == Lex::Comment || is_string(l)
}

/// Whether character `p` of `t` lies inside a comment or string literal.
pub fn in_comment_or_string_exec(t: &[char], p: usize) -> (r: bool)
    ensures
        r == in_comment_or_string(t@, p as int),
{
    let mut i: usize = 0;
    let mut l = Lex::Code;
    while i < p && i < t.len()
        invariant
            lex_at(t@, 0, Lex::Code, p as int) == lex_at(t@, i as int, l, p as int),
            i <= t.len(),
        decreases t.len() - i,
    {
        let (j, m) = lex_step_exec(t, i, l);
        i = j;
        l = m;
    }
    l == Lex::Comment || l == Lex::ShortDouble || l == Lex::ShortSingle || l == Lex::LongDouble
        || l == Lex::LongSingle
}

/// Characters that may appear in a prefixed name / `PN_LOCAL`.
pub open spec fn is_name_char(c: char) -> bool {
    is_ascii_alnum(c) || c == '_' || c == '-' || c == ':' || c == '~' || c == '%' || c == '\\'
        || c == '.'
}

/// A `.` at `i` that terminates a statement: not surrounded on both sides by name characters
/// other than `.` (so `ex:foo.bar` keeps its dot).
pub open spec fn is_terminating_dot(t: Seq<char>, i: int) -> bool {
    0 <= i < t.len() && t[i] == '.' && !((i > 0 && is_name_char(t[i - 1]) && t[i - 1] != '.')
        && (i + 1 < t.len() && is_name_char(t[i + 1]) && t[i + 1] != '.'))
}

fn name_char(c: char) -> (r: bool)
    ensures
        r == is_name_char(c),
{
    ascii_alnum(c) || c == '_' || c == '-' || c == ':' || c == '~' || c == '%' || c == '\\'
        || c == '.'
}

pub fn terminating_dot(t: &[char], i: usize) -> (r: bool)
    ensures
        r == is_terminating_dot(t@, i as int),
{
    if i >= t.len() || t[i] != '.' {
        return false;
    }
    let prev = i > 0 && name_char(t[i - 1]) && t[i - 1] != '.';
    let next = i + 1 < t.len() && name_char(t[i + 1]) && t[i + 1] != '.';
    !(prev && next)
}

/// Scanner state for statement ends: position, lexical context, `[`/`(` nesting.
pub struct StmtScan {
    pub pos: int,
    pub lex: Lex,
    pub brackets: int,
    pub parens: int,
}

/// Counter decremented without going below zero.
pub open spec fn dec_sat(n: int) -> int {
    if n > 0 {
        n - 1
    } else {
        0
    }
}

/// Index just after the terminating `.` of the statement being scanned, if any: the first
/// terminating dot seen in code context at bracket and paren depth zero.
pub open spec fn stmt_end_from(t: Seq<char>, pos: int, lex: Lex, brackets: int, parens: int) -> Option<
    int,
>
    decreases t.len() - pos,
{
    if pos < 0 || pos >= t.len() {
        None
    } else if lex != Lex::Code {
        let (j, m) = lex_step(t, pos, lex);
        stmt_end_from(t, j, m, brackets, parens)
    } else if is_lex_start(t, pos) {
        let (j, m) = lex_step(t, pos, lex);
        stmt_end_from(t, j, m, brackets, parens)
    } else if t[pos] == '[' {
        stmt_end_from(t, pos + 1, lex, brackets + 1, parens)
    } else if t[pos] == ']' {
        stmt_end_from(t, pos + 1, lex, dec_sat(brackets), parens)
    } else if t[pos] == '(' {
        stmt_end_from(t, pos + 1, lex, brackets, parens + 1)
    } else if t[pos] == ')' {
        stmt_end_from(t, pos + 1, lex, brackets, dec_sat(parens))
    } else if t[pos] == '.' && brackets == 0 && parens == 0 && is_terminating_dot(t, pos) {
        Some(pos + 1)
    } else {
        stmt_end_from(t, pos + 1, lex, brackets, parens)
    }
}

/// End of the Turtle statement starting at `start` (`statement_end_byte`), as an index just past
/// its terminating `.`.
pub open spec fn statement_end(t: Seq<char>, start: int) -> Option<int> {
    stmt_end_from(t, start, Lex::Code, 0, 0)
}

pub proof fn lemma_stmt_end_range(t: Seq<char>, pos: int, lex: Lex, brackets: int, parens: int)
    requires
        0 <= pos,
    ensures
        stmt_end_from(t, pos, lex, brackets, parens) matches Some(e) ==> pos < e <= t.len(),
    decreases t.len() - pos,
{
    if pos < t.len() {
        let (j, m) = lex_step(t, pos, lex);
        lemma_stmt_end_range(t, j, m, brackets, parens);
        lemma_stmt_end_range(t, pos + 1, lex, brackets + 1, parens);
        lemma_stmt_end_range(t, pos + 1, lex, dec_sat(brackets), parens);
        lemma_stmt_end_range(t, pos + 1, lex, brackets, parens + 1);
        lemma_stmt_end_range(t, pos + 1, lex, brackets, dec_sat(parens));
        lemma_stmt_end_range(t, pos + 1, lex, brackets, parens);
    }
}


/// A statement ends just past a `.`.
pub proof fn lemma_stmt_end_dot(t: Seq<char>, pos: int, lex: Lex, brackets: int, parens: int)
    requires
        0 <= pos,
    ensures
        stmt_end_from(t, pos, lex, brackets, parens) matches Some(e) ==> 0 < e <= t.len() && t[e - 1] == '.',
    decreases t.len() - pos,
{
    if pos < t.len() {
        let (j, m) = lex_step(t, pos, lex);
        lemma_stmt_end_range(t, j, m, brackets, parens);
        lemma_stmt_end_dot(t, j, m, brackets, parens);
        lemma_stmt_end_dot(t, pos + 1, lex, brackets + 1, parens);
        lemma_stmt_end_dot(t, pos + 1, lex, dec_sat(brackets), parens);
        lemma_stmt_end_dot(t, pos + 1, lex, brackets, parens + 1);
        lemma_stmt_end_dot(t, pos + 1, lex, brackets, dec_sat(parens));
        lemma_stmt_end_dot(t, pos + 1, lex, brackets, parens);
    }
}

/// Walk from `start` to just past the terminating `.` of this statement.
pub fn statement_end_exec(t: &[char], start: usize) -> (r: Option<usize>)
    ensures
        match r {
            Some(e) => statement_end(t@, start as int) == Some(e as int) && start < e <= t.len(),
            None => statement_end(t@, start as int) is None,
        },
{
    proof {
        lemma_stmt_end_range(t@, start as int, Lex::Code, 0, 0);
    }
    let mut i: usize = start;
    let mut lex = Lex::Code;
    let mut brackets: u64 = 0;
    let mut parens: u64 = 0;
    while i < t.len()
        invariant
            start <= i,
            statement_end(t@, start as int) == stmt_end_from(
                t@,
                i as int,
                lex,
                brackets as int,
                parens as int,
            ),
            brackets <= i - start,
            parens <= i - start,
        decreases t.len() - i,
    {
        if lex != Lex::Code || (t[i] == '#' || t[i] == '"' || t[i] == '\'' || t[i] == '<') {
            let (j, m) = lex_step_exec(t, i, lex);
            i = j;
            lex = m;
        } else if t[i] == '[' {
            brackets += 1;
            i += 1;
        } else if t[i] == ']' {
            if brackets > 0 {
                brackets -= 1;
            }
            i += 1;
        } else if t[i] == '(' {
            parens += 1;
            i += 1;
        } else if t[i] == ')' {
            if parens > 0 {
                parens -= 1;
            }
            i += 1;
        } else if t[i] == '.' && brackets == 0 && parens == 0 && terminating_dot(t, i) {
            return Some(i + 1);
        } else {
            i += 1;
        }
    }
    None
}

/// Index just past the `]` matching the `[` at `open` (lexical constructs skipped).
pub open spec fn bracket_close_from(t: Seq<char>, pos: int, lex: Lex, depth: int) -> Option<int>
    decreases t.len() - pos,
{
    if pos < 0 || pos >= t.len() {
        None
    } else if lex != Lex::Code || is_lex_start(t, pos) {
        let (j, m) = lex_step(t, pos, lex);
        bracket_close_from(t, j, m, depth)
    } else if t[pos] == '[' {
        bracket_close_from(t, pos + 1, lex, depth + 1)
    } else if t[pos] == ']' {
        if depth - 1 == 0 {
            Some(pos + 1)
        } else {
            bracket_close_from(t, pos + 1, lex, depth - 1)
        }
    } else {
        bracket_close_from(t, pos + 1, lex, depth)
    }
}

/// Matching bracket end (`bracket_end_index`): `None` unless `t[open] == '['`.
pub open spec fn bracket_end(t: Seq<char>, open: int) -> Option<int> {
    if 0 <= open < t.len() && t[open] == '[' {
        bracket_close_from(t, open, Lex::Code, 0)
    } else {
        None
    }
}

pub proof fn lemma_bracket_close_range(t: Seq<char>, pos: int, lex: Lex, depth: int)
    requires
        0 <= pos,
    ensures
        bracket_close_from(t, pos, lex, depth) matches Some(e) ==> pos < e <= t.len(),
    decreases t.len() - pos,
{
    if pos < t.len() {
        let (j, m) = lex_step(t, pos, lex);
        lemma_bracket_close_range(t, j, m, depth);
        lemma_bracket_close_range(t, pos + 1, lex, depth + 1);
        lemma_bracket_close_range(t, pos + 1, lex, depth - 1);
        lemma_bracket_close_range(t, pos + 1, lex, depth);
    }
}

pub fn bracket_end_exec(t: &[char], open: usize) -> (r: Option<usize>)
    ensures
        match r {
            Some(e) => bracket_end(t@, open as int) == Some(e as int) && open < e <= t.len(),
            None => bracket_end(t@, open as int) is None,
        },
{
    if open >= t.len() || t[open] != '[' {
        return None;
    }
    proof {
        lemma_bracket_close_range(t@, open as int, Lex::Code, 0);
    }
    let mut i: usize = open + 1;
    let mut lex = Lex::Code;
    let mut depth: usize = 1;
    while i < t.len()
        invariant
            open < i <= t.len(),
            bracket_end(t@, open as int) == bracket_close_from(t@, i as int, lex, depth as int),
            1 <= depth <= i - open,
        decreases t.len() - i,
    {
        if lex != Lex::Code || (t[i] == '#' || t[i] == '"' || t[i] == '\'' || t[i] == '<') {
            let (j, m) = lex_step_exec(t, i, lex);
            i = j;
            lex = m;
        } else if t[i] == '[' {
            depth += 1;
            i += 1;
        } else if t[i] == ']' {
            if depth == 1 {
                return Some(i + 1);
            }
            depth -= 1;
            i += 1;
        } else {
            i += 1;
        }
    }
    None
}

/// Index of the `)` matching the `(` at `open` (lexical constructs skipped).
pub open spec fn paren_close_from(t: Seq<char>, pos: int, lex: Lex, depth: int) -> Option<int>
    decreases t.len() - pos,
{
    if pos < 0 || pos >= t.len() {
        None
    } else if lex != Lex::Code || is_lex_start(t, pos) {
        let (j, m) = lex_step(t, pos, lex);
        paren_close_from(t, j, m, depth)
    } else if t[pos] == '(' {
        paren_close_from(t, pos + 1, lex, depth + 1)
    } else if t[pos] == ')' {
        if depth - 1 == 0 {
            Some(pos)
        } else {
            paren_close_from(t, pos + 1, lex, depth - 1)
        }
    } else {
        paren_close_from(t, pos + 1, lex, depth)
    }
}

/// Matching paren (`matching_paren_end`): `None` unless `t[open] == '('`.
pub open spec fn paren_end(t: Seq<char>, open: int) -> Option<int> {
    if 0 <= open < t.len() && t[open] == '(' {
        paren_close_from(t, open, Lex::Code, 0)
    } else {
        None
    }
}

pub proof fn lemma_paren_close_range(t: Seq<char>, pos: int, lex: Lex, depth: int)
    requires
        0 <= pos,
    ensures
        paren_close_from(t, pos, lex, depth) matches Some(e) ==> pos <= e < t.len(),
    decreases t.len() - pos,
{
    if pos < t.len() {
        let (j, m) = lex_step(t, pos, lex);
        lemma_paren_close_range(t, j, m, depth);
        lemma_paren_close_range(t, pos + 1, lex, depth + 1);
        lemma_paren_close_range(t, pos + 1, lex, depth - 1);
        lemma_paren_close_range(t, pos + 1, lex, depth);
    }
}

pub fn paren_end_exec(t: &[char], open: usize) -> (r: Option<usize>)
    ensures
        match r {
            Some(e) => paren_end(t@, open as int) == Some(e as int) && open <= e < t.len(),
            None => paren_end(t@, open as int) is None,
        },
{
    if open >= t.len() || t[open] != '(' {
        return None;
    }
    proof {
        lemma_paren_close_range(t@, open as int, Lex::Code, 0);
    }
    let mut i: usize = open + 1;
    let mut lex = Lex::Code;
    let mut depth: usize = 1;
    while i < t.len()
        invariant
            open < i <= t.len(),
            paren_end(t@, open as int) == paren_close_from(t@, i as int, lex, depth as int),
            1 <= depth <= i - open,
        decreases t.len() - i,
    {
        if lex != Lex::Code || (t[i] == '#' || t[i] == '"' || t[i] == '\'' || t[i] == '<') {
            let (j, m) = lex_step_exec(t, i, lex);
            i = j;
            lex = m;
        } else if t[i] == '(' {
            depth += 1;
            i += 1;
        } else if t[i] == ')' {
            if depth == 1 {
                return Some(i);
            }
            depth -= 1;
            i += 1;
        } else {
            i += 1;
        }
    }
    None
}

} // verus!

verus! {

/// Character before a predicate token that keeps it from being a token start.
pub open spec fn blocks_token_before(c: char) -> bool {
    is_ascii_alnum(c) || c == ':' || c == '_'
}

/// Character after a predicate token that ends it.
pub open spec fn ends_token_after(c: char) -> bool {
    is_ascii_ws(c) || c == ';' || c == '.' || c == ','
}

/// `p` occurs at `i` as a whole Turtle token.
pub open spec fn token_match(t: Seq<char>, i: int, p: Seq<char>) -> bool {
    &&& occurs_at(t, i, p)
    &&& (i == 0 || !blocks_token_before(t[i - 1]))
    &&& (i + p.len() >= t.len() || ends_token_after(t[i + p.len()]))
}

/// First whole-token occurrence of `p` at bracket depth zero, outside comments, strings and
/// IRIs, scanning from `pos` (`find_predicate_token`).
pub open spec fn pred_token_from(t: Seq<char>, pos: int, lex: Lex, depth: int, p: Seq<char>) -> Option<
    int,
>
    decreases t.len() - pos,
{
    if pos < 0 || pos + p.len() > t.len() || pos >= t.len() {
        None
    } else if lex != Lex::Code || is_lex_start(t, pos) {
        let (j, m) = lex_step(t, pos, lex);
        pred_token_from(t, j, m, depth, p)
    } else if t[pos] == '[' {
        pred_token_from(t, pos + 1, lex, depth + 1, p)
    } else if t[pos] == ']' {
        pred_token_from(t, pos + 1, lex, dec_sat(depth), p)
    } else if depth == 0 && token_match(t, pos, p) {
        Some(pos)
    } else {
        pred_token_from(t, pos + 1, lex, depth, p)
    }
}

/// Predicate token search starting in code context at `from`; empty patterns never match.
pub open spec fn find_predicate_token(t: Seq<char>, from: int, p: Seq<char>) -> Option<int> {
    if p.len() == 0 || from >= t.len() {
        None
    } else {
        pred_token_from(t, from, Lex::Code, 0, p)
    }
}

pub proof fn lemma_pred_token_range(t: Seq<char>, pos: int, lex: Lex, depth: int, p: Seq<char>)
    requires
        0 <= pos,
    ensures
        pred_token_from(t, pos, lex, depth, p) matches Some(e) ==> pos <= e && token_match(t, e, p),
    decreases t.len() - pos,
{
    if pos < t.len() {
        let (j, m) = lex_step(t, pos, lex);
        lemma_pred_token_range(t, j, m, depth, p);
        lemma_pred_token_range(t, pos + 1, lex, depth + 1, p);
        lemma_pred_token_range(t, pos + 1, lex, dec_sat(depth), p);
        lemma_pred_token_range(t, pos + 1, lex, depth, p);
    }
}

fn ends_after(c: char) -> (r: bool)
    ensures
        r == ends_token_after(c),
{
    c == ' ' || c == '\t' || c == '\n' || c == '\u{c}' || c == '\r' || c == ';' || c == '.' || c
        == ','
}

pub fn find_predicate_token_exec(t: &[char], from: usize, p: &[char]) -> (r: Option<usize>)
    ensures
        match r {
            Some(e) => find_predicate_token(t@, from as int, p@) == Some(e as int) && from <= e
                && token_match(t@, e as int, p@),
            None => find_predicate_token(t@, from as int, p@) is None,
        },
{
    if p.len() == 0 || from >= t.len() {
        return None;
    }
    proof {
        lemma_pred_token_range(t@, from as int, Lex::Code, 0, p@);
    }
    let mut i: usize = from;
    let mut lex = Lex::Code;
    let mut depth: usize = 0;
    while i < t.len() && p.len() <= t.len() - i
        invariant
            from <= i <= t.len(),
            p.len() > 0,
            find_predicate_token(t@, from as int, p@) == pred_token_from(
                t@,
                i as int,
                lex,
                depth as int,
                p@,
            ),
            depth <= i - from,
        decreases t.len() - i,
    {
        if lex != Lex::Code || (t[i] == '#' || t[i] == '"' || t[i] == '\'' || t[i] == '<') {
            let (j, m) = lex_step_exec(t, i, lex);
            i = j;
            lex = m;
        } else if t[i] == '[' {
            depth += 1;
            i += 1;
        } else if t[i] == ']' {
            if depth > 0 {
                depth -= 1;
            }
            i += 1;
        } else {
            if depth == 0 && occurs(t, i, p) {
                let after = i + p.len();
                let before_ok = i == 0 || !(ascii_alnum(t[i - 1]) || t[i - 1] == ':' || t[i - 1]
                    == '_');
                let after_ok = after >= t.len() || ends_after(t[after]);
                if before_ok && after_ok {
                    return Some(i);
                }
            }
            i += 1;
        }
    }
    None
}

/// The statement declares a type (`a` or `rdf:type` as a predicate token).
pub open spec fn has_type_predicate(stmt: Seq<char>) -> bool {
    find_predicate_token(stmt, 0, seq!['a']) is Some || find_predicate_token(
        stmt,
        0,
        "rdf:type"@,
    ) is Some
}

pub fn has_type_predicate_exec(stmt: &[char]) -> (r: bool)
    ensures
        r == has_type_predicate(stmt@),
{
    let a: [char; 1] = ['a'];
    assert(a@ == seq!['a']);
    if find_predicate_token_exec(stmt, 0, &a).is_some() {
        return true;
    }
    let rt = crate::text::chars_of("rdf:type");
    find_predicate_token_exec(stmt, 0, rt.as_slice()).is_some()
}

} // verus!
