//! Classifying SPARQL requests as updates (writes) or read-only queries.
use vstd::prelude::*;
use crate::text::{
    chars_of, eq_ignore_case, eq_ignore_case_exec, find_from, find_from_spec, is_ascii_ws, occurs_at,
    lemma_find_from_none, lemma_next_char_bounds, lemma_skip_ws_bounds, next_char, next_char_exec, skip_ws,
    skip_ws_exec, slice_chars, is_ws, upper_spec,
};

verus! {

/// `t[k..]` starts with `w`, ASCII case ignored.
pub open spec fn starts_ci(t: Seq<char>, k: int, w: Seq<char>) -> bool {
    0 <= k && k + w.len() <= t.len() && eq_ignore_case(t.subrange(k, k + w.len()), w)
}

/// The character after a word of length `n` at `k` ends it: end of text, or an ASCII blank,
/// or one of `extra`.
pub open spec fn word_ends(t: Seq<char>, k: int, n: int, extra: char) -> bool {
    k + n >= t.len() || is_ascii_ws(t[k + n]) || t[k + n] == extra
}

/// Index after the first newline at or after `k` (or the end of the text).
pub open spec fn after_newline(t: Seq<char>, k: int) -> int {
    let n = next_char(t, k, '\n');
    if n < t.len() {
        n + 1
    } else {
        t.len() as int
    }
}

/// Past a `PREFIX`/`BASE`/`WITH` clause starting at `k`: after its `>` and blanks, else after
/// the line.
pub open spec fn skip_clause(t: Seq<char>, k: int) -> int {
    let g = next_char(t, k, '>');
    if g < t.len() {
        skip_ws(t, g + 1)
    } else {
        after_newline(t, k)
    }
}

/// Past `USING [NAMED] <graph>` starting at `k`.
pub open spec fn skip_using(t: Seq<char>, k: int) -> int {
    let a = skip_ws(t, k + 5);
    let b = if starts_ci(t, a, "NAMED"@) && (a + 5 >= t.len() || is_ascii_ws(t[a + 5]) || t[a + 5]
        == '<') {
        skip_ws(t, a + 5)
    } else {
        a
    };
    let g = next_char(t, b, '>');
    if g < t.len() {
        skip_ws(t, g + 1)
    } else {
        after_newline(t, k)
    }
}

/// An update verb at `k`, ended by a blank, `{` or the end of the text.
pub open spec fn verb_at(t: Seq<char>, k: int) -> bool {
    ||| starts_ci(t, k, "INSERT"@) && word_ends(t, k, 6, '{')
    ||| starts_ci(t, k, "DELETE"@) && word_ends(t, k, 6, '{')
    ||| starts_ci(t, k, "LOAD"@) && word_ends(t, k, 4, '{')
    ||| starts_ci(t, k, "CLEAR"@) && word_ends(t, k, 5, '{')
    ||| starts_ci(t, k, "CREATE"@) && word_ends(t, k, 6, '{')
    ||| starts_ci(t, k, "DROP"@) && word_ends(t, k, 4, '{')
    ||| starts_ci(t, k, "MOVE"@) && word_ends(t, k, 4, '{')
    ||| starts_ci(t, k, "COPY"@) && word_ends(t, k, 4, '{')
    ||| starts_ci(t, k, "ADD"@) && word_ends(t, k, 3, '{')
}

/// Where the reading goes on after the clause or comment at `k`, or `-1` when the word at
/// `k` decides.
pub open spec fn clause_end(t: Seq<char>, k: int) -> int {
    if t[k] == '#' {
        after_newline(t, k + 1)
    } else if k + 1 < t.len() && t[k] == '/' && t[k + 1] == '*' {
        let f = find_from_spec(t, k, "*/"@);
        if f >= 0 {
            f + 2
        } else {
            t.len() as int
        }
    } else if starts_ci(t, k, "PREFIX"@) || starts_ci(t, k, "BASE"@) {
        skip_clause(t, k)
    } else if starts_ci(t, k, "WITH"@) && word_ends(t, k, 4, '<') {
        skip_clause(t, k)
    } else if starts_ci(t, k, "USING"@) && word_ends(t, k, 5, ' ') {
        skip_using(t, k)
    } else {
        -1
    }
}

/// Whether the request text from `i` on is an update: comments and the `PREFIX`, `BASE`,
/// `WITH` and `USING` clauses are skipped, then the first word decides.
pub open spec fn update_from(t: Seq<char>, i: int) -> bool
    decreases t.len() - i,
{
    let k = skip_ws(t, i);
    if i < 0 || k >= t.len() {
        false
    } else {
        let next = clause_end(t, k);
        if next == -1 {
            verb_at(t, k)
        } else if i < next <= t.len() {
            update_from(t, next)
        } else {
            false
        }
    }
}

proof fn lemma_shift_skip_ws(p: Seq<char>, q: Seq<char>, i: int)
    requires
        0 <= i <= q.len(),
    ensures
        skip_ws(p + q, p.len() + i) == p.len() + skip_ws(q, i),
    decreases q.len() - i,
{
    let t = p + q;
    if i < q.len() {
        assert(t[p.len() + i] == q[i]);
        lemma_shift_skip_ws(p, q, i + 1);
    }
}

proof fn lemma_shift_next_char(p: Seq<char>, q: Seq<char>, i: int, c: char)
    requires
        0 <= i <= q.len(),
    ensures
        next_char(p + q, p.len() + i, c) == p.len() + next_char(q, i, c),
    decreases q.len() - i,
{
    let t = p + q;
    if i < q.len() {
        assert(t[p.len() + i] == q[i]);
        lemma_shift_next_char(p, q, i + 1, c);
    }
}

proof fn lemma_shift_occurs(p: Seq<char>, q: Seq<char>, i: int, w: Seq<char>)
    requires
        0 <= i,
    ensures
        occurs_at(p + q, p.len() + i, w) == occurs_at(q, i, w),
        starts_ci(p + q, p.len() + i, w) == starts_ci(q, i, w),
{
    let t = p + q;
    if i + w.len() <= q.len() {
        assert(t.subrange(p.len() + i, p.len() + i + w.len()) =~= q.subrange(i, i + w.len()));
    }
}

proof fn lemma_shift_find(p: Seq<char>, q: Seq<char>, i: int, w: Seq<char>)
    requires
        0 <= i,
    ensures
        find_from_spec(p + q, p.len() + i, w) == if find_from_spec(q, i, w) >= 0 {
            p.len() + find_from_spec(q, i, w)
        } else {
            -1
        },
    decreases q.len() + 1 - i,
{
    lemma_shift_occurs(p, q, i, w);
    if i + w.len() <= q.len() && !occurs_at(q, i, w) {
        lemma_shift_find(p, q, i + 1, w);
    }
}

proof fn lemma_shift_after_newline(p: Seq<char>, q: Seq<char>, i: int)
    requires
        0 <= i <= q.len(),
    ensures
        after_newline(p + q, p.len() + i) == p.len() + after_newline(q, i),
{
    lemma_shift_next_char(p, q, i, '\n');
}

proof fn lemma_shift_word_ends(p: Seq<char>, q: Seq<char>, k: int, n: int, e: char)
    requires
        0 <= k,
        0 <= n,
    ensures
        word_ends(p + q, p.len() + k, n, e) == word_ends(q, k, n, e),
{
    if k + n < q.len() {
        assert((p + q)[p.len() + k + n] == q[k + n]);
    }
}

proof fn lemma_shift_verb(p: Seq<char>, q: Seq<char>, k: int)
    requires
        0 <= k,
    ensures
        verb_at(p + q, p.len() + k) == verb_at(q, k),
{
    lemma_shift_occurs(p, q, k, "INSERT"@);
    lemma_shift_occurs(p, q, k, "DELETE"@);
    lemma_shift_occurs(p, q, k, "LOAD"@);
    lemma_shift_occurs(p, q, k, "CLEAR"@);
    lemma_shift_occurs(p, q, k, "CREATE"@);
    lemma_shift_occurs(p, q, k, "DROP"@);
    lemma_shift_occurs(p, q, k, "MOVE"@);
    lemma_shift_occurs(p, q, k, "COPY"@);
    lemma_shift_occurs(p, q, k, "ADD"@);
    lemma_shift_word_ends(p, q, k, 6, '{');
    lemma_shift_word_ends(p, q, k, 5, '{');
    lemma_shift_word_ends(p, q, k, 4, '{');
    lemma_shift_word_ends(p, q, k, 3, '{');
}

proof fn lemma_shift_clause(p: Seq<char>, q: Seq<char>, k: int)
    requires
        0 <= k < q.len(),
    ensures
        clause_end(p + q, p.len() + k) == if clause_end(q, k) == -1 {
            -1
        } else {
            p.len() + clause_end(q, k)
        },
        clause_end(q, k) == -1 || clause_end(q, k) >= 0,
{
    let t = p + q;
    let o = p.len() as int;
    assert(t[o + k] == q[k]);
    if k + 1 < q.len() {
        assert(t[o + k + 1] == q[k + 1]);
    }
    reveal_strlit("*/");
    reveal_strlit("PREFIX");
    reveal_strlit("BASE");
    reveal_strlit("WITH");
    reveal_strlit("USING");
    reveal_strlit("NAMED");
    lemma_shift_find(p, q, k, "*/"@);
    lemma_shift_occurs(p, q, k, "PREFIX"@);
    lemma_shift_occurs(p, q, k, "BASE"@);
    lemma_shift_occurs(p, q, k, "WITH"@);
    lemma_shift_occurs(p, q, k, "USING"@);
    lemma_shift_word_ends(p, q, k, 4, '<');
    lemma_shift_word_ends(p, q, k, 5, ' ');
    lemma_shift_after_newline(p, q, k + 1);
    lemma_shift_after_newline(p, q, k);
    lemma_next_char_bounds(q, k + 1, '\n');
    lemma_next_char_bounds(q, k, '\n');
    lemma_shift_next_char(p, q, k, '>');
    lemma_next_char_bounds(q, k, '>');
    let g = next_char(q, k, '>');
    if g < q.len() {
        lemma_shift_skip_ws(p, q, g + 1);
        lemma_skip_ws_bounds(q, g + 1);
    }
    assert(skip_clause(t, o + k) == o + skip_clause(q, k));
    if starts_ci(q, k, "USING"@) {
        lemma_using_shift(p, q, k);
    }
}

proof fn lemma_using_shift(p: Seq<char>, q: Seq<char>, k: int)
    requires
        0 <= k < q.len(),
        starts_ci(q, k, "USING"@),
    ensures
        skip_using(p + q, p.len() + k) == p.len() + skip_using(q, k),
        skip_using(q, k) >= 0,
{
    let t = p + q;
    let o = p.len() as int;
    reveal_strlit("USING");
    reveal_strlit("NAMED");
    lemma_shift_skip_ws(p, q, k + 5);
    lemma_skip_ws_bounds(q, k + 5);
    let a = skip_ws(q, k + 5);
    lemma_shift_occurs(p, q, a, "NAMED"@);
    if a + 5 < q.len() {
        assert(t[o + a + 5] == q[a + 5]);
    }
    if a + 5 <= q.len() {
        lemma_shift_skip_ws(p, q, a + 5);
        lemma_skip_ws_bounds(q, a + 5);
    }
    let b = if starts_ci(q, a, "NAMED"@) && (a + 5 >= q.len() || is_ascii_ws(q[a + 5]) || q[a + 5] == '<') {
        skip_ws(q, a + 5)
    } else {
        a
    };
    lemma_shift_next_char(p, q, b, '>');
    lemma_next_char_bounds(q, b, '>');
    let g2 = next_char(q, b, '>');
    if g2 < q.len() {
        lemma_shift_skip_ws(p, q, g2 + 1);
        lemma_skip_ws_bounds(q, g2 + 1);
    }
    lemma_shift_after_newline(p, q, k);
    lemma_next_char_bounds(q, k, '\n');
}

/// Text before the request changes nothing once the reading has moved past it.
proof fn lemma_shift_update(p: Seq<char>, q: Seq<char>, i: int)
    requires
        0 <= i <= q.len(),
    ensures
        update_from(p + q, p.len() + i) == update_from(q, i),
    decreases q.len() - i,
{
    lemma_shift_skip_ws(p, q, i);
    lemma_skip_ws_bounds(q, i);
    let k = skip_ws(q, i);
    if k < q.len() {
        lemma_shift_clause(p, q, k);
        lemma_shift_verb(p, q, k);
        let next = clause_end(q, k);
        if next != -1 && i < next <= q.len() {
            lemma_shift_update(p, q, next);
        }
    }
}


proof fn lemma_clause_after(t: Seq<char>, k: int)
    requires
        0 <= k < t.len(),
    ensures
        clause_end(t, k) == -1 || clause_end(t, k) > k,
{
    reveal_strlit("USING");
    reveal_strlit("NAMED");
    lemma_next_char_bounds(t, k + 1, '\n');
    lemma_next_char_bounds(t, k, '\n');
    lemma_next_char_bounds(t, k, '>');
    lemma_find_from_none(t, k, "*/"@);
    let g = next_char(t, k, '>');
    if g < t.len() {
        lemma_skip_ws_bounds(t, g + 1);
    }
    if starts_ci(t, k, "USING"@) {
        lemma_skip_ws_bounds(t, k + 5);
        let a = skip_ws(t, k + 5);
        if a + 5 <= t.len() {
            lemma_skip_ws_bounds(t, a + 5);
        }
        let b = if starts_ci(t, a, "NAMED"@) && (a + 5 >= t.len() || is_ascii_ws(t[a + 5]) || t[a + 5] == '<') {
            skip_ws(t, a + 5)
        } else {
            a
        };
        lemma_next_char_bounds(t, b, '>');
        let g2 = next_char(t, b, '>');
        if g2 < t.len() {
            lemma_skip_ws_bounds(t, g2 + 1);
        }
    }
}

/// Law: blanks and `#` comment lines before a request do not change whether it is an update.
pub proof fn law_update_ignores_leading_comments(q: Seq<char>, c: Seq<char>)
    requires
        !c.contains('\n'),
    ensures
        update_from("  #"@ + c + "\n"@ + q, 0) == update_from(q, 0),
        update_from("\n\t"@ + q, 0) == update_from(q, 0),
{
    reveal_strlit("  #");
    reveal_strlit("\n");
    reveal_strlit("\n\t");
    let pre = "  #"@ + c + "\n"@;
    let t = pre + q;
    assert(t[0] == ' ' && t[1] == ' ' && t[2] == '#');
    assert(!is_ws('#'));
    assert(skip_ws(t, 2) == 2);
    assert(skip_ws(t, 1) == skip_ws(t, 2));
    assert(skip_ws(t, 0) == 2);
    assert forall|j: int| 3 <= j < 3 + c.len() implies t[j] != '\n' by {
        assert(t[j] == c[j - 3]);
        if t[j] == '\n' {
            assert(c.contains('\n'));
        }
    }
    assert(t[3 + c.len() as int] == '\n');
    lemma_next_char_run(t, 3, 3 + c.len() as int);
    assert(after_newline(t, 3) == pre.len());
    assert(clause_end(t, 2) == pre.len());
    lemma_shift_update(pre, q, 0);
    let p2 = "\n\t"@;
    let u = p2 + q;
    lemma_shift_skip_ws(p2, q, 0);
    assert(u[0] == '\n' && u[1] == '\t');
    assert(skip_ws(u, 1) == skip_ws(u, 2));
    assert(skip_ws(u, 0) == skip_ws(u, 2));
    lemma_skip_ws_bounds(q, 0);
    let k = skip_ws(q, 0);
    if k < q.len() {
        lemma_shift_clause(p2, q, k);
        lemma_shift_verb(p2, q, k);
        lemma_clause_after(q, k);
        let next = clause_end(q, k);
        if next != -1 && next <= q.len() {
            lemma_shift_update(p2, q, next);
        }
    }
}

proof fn lemma_next_char_run(t: Seq<char>, j: int, n: int)
    requires
        0 <= j <= n < t.len(),
        t[n] == '\n',
        forall|m: int| j <= m < n ==> t[m] != '\n',
    ensures
        next_char(t, j, '\n') == n,
    decreases n - j,
{
    if j < n {
        lemma_next_char_run(t, j + 1, n);
    }
}


/// `str::to_ascii_uppercase` on characters.
pub open spec fn ascii_upper(t: Seq<char>) -> Seq<char> {
    t.map_values(|c: char| upper_spec(c))
}

proof fn lemma_upper_char(c: char)
    ensures
        is_ws(upper_spec(c)) == is_ws(c),
        is_ascii_ws(upper_spec(c)) == is_ascii_ws(c),
        (upper_spec(c) == '#') == (c == '#'),
        (upper_spec(c) == '/') == (c == '/'),
        (upper_spec(c) == '*') == (c == '*'),
        (upper_spec(c) == '\n') == (c == '\n'),
        (upper_spec(c) == '>') == (c == '>'),
        (upper_spec(c) == '<') == (c == '<'),
        (upper_spec(c) == '{') == (c == '{'),
        (upper_spec(c) == ' ') == (c == ' '),
        upper_spec(upper_spec(c)) == upper_spec(c),
{
    if 'a' <= c && c <= 'z' {
        assert('A' <= upper_spec(c) && upper_spec(c) <= 'Z');
    }
}

proof fn lemma_upper_skip_ws(t: Seq<char>, i: int)
    ensures
        skip_ws(ascii_upper(t), i) == skip_ws(t, i),
    decreases t.len() - i,
{
    if 0 <= i < t.len() {
        lemma_upper_char(t[i]);
        lemma_upper_skip_ws(t, i + 1);
    }
}

proof fn lemma_upper_next_char(t: Seq<char>, i: int, x: char)
    requires
        x == '\n' || x == '>',
    ensures
        next_char(ascii_upper(t), i, x) == next_char(t, i, x),
    decreases t.len() - i,
{
    if 0 <= i < t.len() {
        lemma_upper_char(t[i]);
        lemma_upper_next_char(t, i + 1, x);
    }
}

proof fn lemma_upper_find(t: Seq<char>, i: int)
    ensures
        find_from_spec(ascii_upper(t), i, "*/"@) == find_from_spec(t, i, "*/"@),
    decreases t.len() + 1 - i,
{
    reveal_strlit("*/");
    let u = ascii_upper(t);
    if 0 <= i && i + 2 <= t.len() {
        lemma_upper_char(t[i]);
        lemma_upper_char(t[i + 1]);
        assert(occurs_at(u, i, "*/"@) == (u[i] == '*' && u[i + 1] == '/')) by {
            if u[i] == '*' && u[i + 1] == '/' {
                assert(u.subrange(i, i + 2) =~= "*/"@);
            }
            if occurs_at(u, i, "*/"@) {
                assert(u.subrange(i, i + 2)[0] == u[i]);
                assert(u.subrange(i, i + 2)[1] == u[i + 1]);
            }
        }
        assert(occurs_at(t, i, "*/"@) == (t[i] == '*' && t[i + 1] == '/')) by {
            if t[i] == '*' && t[i + 1] == '/' {
                assert(t.subrange(i, i + 2) =~= "*/"@);
            }
            if occurs_at(t, i, "*/"@) {
                assert(t.subrange(i, i + 2)[0] == t[i]);
                assert(t.subrange(i, i + 2)[1] == t[i + 1]);
            }
        }
        lemma_upper_find(t, i + 1);
    }
}

proof fn lemma_upper_starts(t: Seq<char>, k: int, w: Seq<char>)
    ensures
        starts_ci(ascii_upper(t), k, w) == starts_ci(t, k, w),
{
    let u = ascii_upper(t);
    if 0 <= k && k + w.len() <= t.len() {
        let a = u.subrange(k, k + w.len());
        let b = t.subrange(k, k + w.len());
        assert forall|i: int| 0 <= i < w.len() implies upper_spec(#[trigger] a[i]) == upper_spec(b[i]) by {
            lemma_upper_char(t[k + i]);
        }
        if eq_ignore_case(a, w) {
            assert forall|i: int| 0 <= i < b.len() implies upper_spec(#[trigger] b[i]) == upper_spec(w[i]) by {
                assert(upper_spec(a[i]) == upper_spec(w[i]));
                assert(upper_spec(a[i]) == upper_spec(b[i]));
            }
        }
        if eq_ignore_case(b, w) {
            assert forall|i: int| 0 <= i < a.len() implies upper_spec(#[trigger] a[i]) == upper_spec(w[i]) by {
                assert(upper_spec(b[i]) == upper_spec(w[i]));
                assert(upper_spec(a[i]) == upper_spec(b[i]));
            }
        }
    }
}

proof fn lemma_upper_word_ends(t: Seq<char>, k: int, n: int, e: char)
    requires
        e == '{' || e == '<' || e == ' ',
        0 <= k,
        0 <= n,
    ensures
        word_ends(ascii_upper(t), k, n, e) == word_ends(t, k, n, e),
{
    if k + n < t.len() {
        lemma_upper_char(t[k + n]);
    }
}

proof fn lemma_upper_verb(t: Seq<char>, k: int)
    requires
        0 <= k,
    ensures
        verb_at(ascii_upper(t), k) == verb_at(t, k),
{
    lemma_upper_starts(t, k, "INSERT"@);
    lemma_upper_starts(t, k, "DELETE"@);
    lemma_upper_starts(t, k, "LOAD"@);
    lemma_upper_starts(t, k, "CLEAR"@);
    lemma_upper_starts(t, k, "CREATE"@);
    lemma_upper_starts(t, k, "DROP"@);
    lemma_upper_starts(t, k, "MOVE"@);
    lemma_upper_starts(t, k, "COPY"@);
    lemma_upper_starts(t, k, "ADD"@);
    lemma_upper_word_ends(t, k, 6, '{');
    lemma_upper_word_ends(t, k, 5, '{');
    lemma_upper_word_ends(t, k, 4, '{');
    lemma_upper_word_ends(t, k, 3, '{');
}

proof fn lemma_upper_clause(t: Seq<char>, k: int)
    requires
        0 <= k < t.len(),
    ensures
        clause_end(ascii_upper(t), k) == clause_end(t, k),
{
    let u = ascii_upper(t);
    reveal_strlit("USING");
    reveal_strlit("NAMED");
    lemma_upper_char(t[k]);
    if k + 1 < t.len() {
        lemma_upper_char(t[k + 1]);
    }
    lemma_upper_next_char(t, k + 1, '\n');
    lemma_upper_next_char(t, k, '\n');
    lemma_upper_next_char(t, k, '>');
    lemma_upper_find(t, k);
    lemma_upper_starts(t, k, "PREFIX"@);
    lemma_upper_starts(t, k, "BASE"@);
    lemma_upper_starts(t, k, "WITH"@);
    lemma_upper_starts(t, k, "USING"@);
    lemma_upper_word_ends(t, k, 4, '<');
    lemma_upper_word_ends(t, k, 5, ' ');
    let g = next_char(t, k, '>');
    lemma_upper_skip_ws(t, g + 1);
    lemma_upper_skip_ws(t, k + 5);
    let a = skip_ws(t, k + 5);
    lemma_upper_starts(t, a, "NAMED"@);
    if 0 <= a + 5 < t.len() {
        lemma_upper_char(t[a + 5]);
    }
    lemma_upper_skip_ws(t, a + 5);
    let b = if starts_ci(t, a, "NAMED"@) && (a + 5 >= t.len() || is_ascii_ws(t[a + 5]) || t[a + 5] == '<') {
        skip_ws(t, a + 5)
    } else {
        a
    };
    lemma_upper_next_char(t, b, '>');
    lemma_upper_skip_ws(t, next_char(t, b, '>') + 1);
    assert(skip_clause(u, k) == skip_clause(t, k));
    assert(skip_using(u, k) == skip_using(t, k));
}

/// Law: ASCII case does not change whether a request is an update (`is_sparql_update` of
/// `q` and of `q.to_ascii_uppercase()` agree).
pub proof fn law_update_ignores_ascii_case(q: Seq<char>, i: int)
    ensures
        update_from(ascii_upper(q), i) == update_from(q, i),
    decreases q.len() - i,
{
    lemma_upper_skip_ws(q, i);
    let k = skip_ws(q, i);
    if 0 <= i && k < q.len() {
        lemma_skip_ws_bounds(q, i);
        lemma_upper_clause(q, k);
        lemma_upper_verb(q, k);
        let next = clause_end(q, k);
        if next != -1 && i < next <= q.len() {
            law_update_ignores_ascii_case(q, next);
        }
    }
}

fn starts_ci_exec(t: &[char], k: usize, w: &str) -> (r: bool)
    ensures
        r == starts_ci(t@, k as int, w@),
{
    let v = chars_of(w);
    if k > t.len() || t.len() - k < v.len() {
        return false;
    }
    let part = slice_chars(t, k, k + v.len());
    eq_ignore_case_exec(part.as_slice(), v.as_slice())
}

fn word_ends_exec(t: &[char], k: usize, n: usize, extra: char) -> (r: bool)
    requires
        k <= t.len(),
    ensures
        r == word_ends(t@, k as int, n as int, extra),
{
    n >= t.len() - k || {
        let c = t[k + n];
        c == ' ' || c == '\t' || c == '\n' || c == '\u{c}' || c == '\r' || c == extra
    }
}

fn after_newline_exec(t: &[char], k: usize) -> (r: usize)
    requires
        k <= t.len(),
    ensures
        r as int == after_newline(t@, k as int),
        k < r || r == t.len(),
        r <= t.len(),
{
    proof {
        lemma_next_char_bounds(t@, k as int, '\n');
    }
    let n = next_char_exec(t, k, '\n');
    if n < t.len() {
        n + 1
    } else {
        t.len()
    }
}

fn skip_clause_exec(t: &[char], k: usize) -> (r: usize)
    requires
        k < t.len(),
    ensures
        r as int == skip_clause(t@, k as int),
        k < r <= t.len(),
{
    proof {
        lemma_next_char_bounds(t@, k as int, '>');
    }
    let g = next_char_exec(t, k, '>');
    if g < t.len() {
        proof {
            lemma_skip_ws_bounds(t@, g + 1);
        }
        skip_ws_exec(t, g + 1)
    } else {
        after_newline_exec(t, k)
    }
}

fn skip_using_exec(t: &[char], k: usize) -> (r: usize)
    requires
        k + 5 <= t.len(),
    ensures
        r as int == skip_using(t@, k as int),
        k < r <= t.len(),
{
    proof {
        lemma_skip_ws_bounds(t@, k + 5);
    }
    let a = skip_ws_exec(t, k + 5);
    assert(a <= t.len());
    let b = if starts_ci_exec(t, a, "NAMED") && word_ends_exec(t, a, 5, '<') {
        proof {
            reveal_strlit("NAMED");
            lemma_skip_ws_bounds(t@, a + 5);
        }
        skip_ws_exec(t, a + 5)
    } else {
        a
    };
    proof {
        lemma_next_char_bounds(t@, b as int, '>');
    }
    let g = next_char_exec(t, b, '>');
    if g < t.len() {
        proof {
            lemma_skip_ws_bounds(t@, g + 1);
        }
        skip_ws_exec(t, g + 1)
    } else {
        after_newline_exec(t, k)
    }
}

fn verb_at_exec(t: &[char], k: usize) -> (r: bool)
    requires
        k <= t.len(),
    ensures
        r == verb_at(t@, k as int),
{
    (starts_ci_exec(t, k, "INSERT") && word_ends_exec(t, k, 6, '{')) || (starts_ci_exec(
        t,
        k,
        "DELETE",
    ) && word_ends_exec(t, k, 6, '{')) || (starts_ci_exec(t, k, "LOAD") && word_ends_exec(
        t,
        k,
        4,
        '{',
    )) || (starts_ci_exec(t, k, "CLEAR") && word_ends_exec(t, k, 5, '{')) || (starts_ci_exec(
        t,
        k,
        "CREATE",
    ) && word_ends_exec(t, k, 6, '{')) || (starts_ci_exec(t, k, "DROP") && word_ends_exec(
        t,
        k,
        4,
        '{',
    )) || (starts_ci_exec(t, k, "MOVE") && word_ends_exec(t, k, 4, '{')) || (starts_ci_exec(
        t,
        k,
        "COPY",
    ) && word_ends_exec(t, k, 4, '{')) || (starts_ci_exec(t, k, "ADD") && word_ends_exec(
        t,
        k,
        3,
        '{',
    ))
}

/// `is_sparql_update`: whether the request appears to be a SPARQL update rather than a
/// read-only query.
pub fn is_sparql_update(sparql: &str) -> (r: bool)
    ensures
        r == update_from(sparql@, 0),
{
    let t = chars_of(sparql);
    let mut i: usize = 0;
    loop
        invariant
            t@ == sparql@,
            i <= t.len(),
            update_from(t@, 0) == update_from(t@, i as int),
        decreases t.len() - i,
    {
        proof {
            lemma_skip_ws_bounds(t@, i as int);
        }
        let k = skip_ws_exec(t.as_slice(), i);
        if k >= t.len() {
            return false;
        }
        let next: usize;
        if t[k] == '#' {
            next = after_newline_exec(t.as_slice(), k + 1);
        } else if k + 1 < t.len() && t[k] == '/' && t[k + 1] == '*' {
            let star = chars_of("*/");
            match find_from(t.as_slice(), k, star.as_slice()) {
                Some(f) => {
                    proof {
                        reveal_strlit("*/");
                    }
                    next = f + 2;
                },
                None => {
                    next = t.len();
                },
            }
        } else if starts_ci_exec(t.as_slice(), k, "PREFIX") || starts_ci_exec(t.as_slice(), k, "BASE") {
            next = skip_clause_exec(t.as_slice(), k);
        } else if starts_ci_exec(t.as_slice(), k, "WITH") && word_ends_exec(t.as_slice(), k, 4, '<') {
            next = skip_clause_exec(t.as_slice(), k);
        } else if starts_ci_exec(t.as_slice(), k, "USING") && word_ends_exec(t.as_slice(), k, 5, ' ') {
            proof {
                reveal_strlit("USING");
            }
            next = skip_using_exec(t.as_slice(), k);
        } else {
            return verb_at_exec(t.as_slice(), k);
        }
        i = next;
    }
}

/// The words that start a SPARQL Update operation.
pub open spec fn update_verb(k: int) -> Seq<char> {
    if k == 0 {
        "INSERT"@
    } else if k == 1 {
        "DELETE"@
    } else if k == 2 {
        "LOAD"@
    } else if k == 3 {
        "CLEAR"@
    } else if k == 4 {
        "CREATE"@
    } else if k == 5 {
        "DROP"@
    } else if k == 6 {
        "MOVE"@
    } else if k == 7 {
        "COPY"@
    } else {
        "ADD"@
    }
}

/// Law: a request whose first word is one of the SPARQL Update verbs (`INSERT`, `DELETE`,
/// `LOAD`, `CLEAR`, `CREATE`, `DROP`, `MOVE`, `COPY`, `ADD`), followed by a blank and
/// anything at all, is an update (`is_sparql_update`), and stays one when written in any ASCII
/// case (see `law_update_ignores_ascii_case`).
#[verifier::spinoff_prover]
#[verifier::rlimit(50)]
pub proof fn law_update_verbs(k: int, rest: Seq<char>)
    requires
        0 <= k < 9,
    ensures
        update_from(update_verb(k) + " "@ + rest, 0),
{
    reveal_strlit("INSERT");
    reveal_strlit("DELETE");
    reveal_strlit("LOAD");
    reveal_strlit("CLEAR");
    reveal_strlit("CREATE");
    reveal_strlit("DROP");
    reveal_strlit("MOVE");
    reveal_strlit("COPY");
    reveal_strlit("ADD");
    reveal_strlit(" ");
    reveal_strlit("PREFIX");
    reveal_strlit("BASE");
    reveal_strlit("WITH");
    reveal_strlit("USING");
    let w = update_verb(k);
    let t = w + " "@ + rest;
    let n = w.len() as int;
    assert(t[0] == w[0]);
    assert(t[n] == ' ');
    assert(t.subrange(0, n) =~= w);
    assert(!is_ws(t[0]));
    assert(skip_ws(t, 0) == 0);
    assert(t[0] != '#' && t[0] != '/');
    assert(!starts_ci(t, 0, "PREFIX"@)) by {
        if starts_ci(t, 0, "PREFIX"@) {
            assert(t.subrange(0, 6)[0] == t[0]);
        }
    }
    assert(!starts_ci(t, 0, "BASE"@)) by {
        if starts_ci(t, 0, "BASE"@) {
            assert(t.subrange(0, 4)[0] == t[0]);
        }
    }
    assert(!starts_ci(t, 0, "WITH"@)) by {
        if starts_ci(t, 0, "WITH"@) {
            assert(t.subrange(0, 4)[0] == t[0]);
        }
    }
    assert(!starts_ci(t, 0, "USING"@)) by {
        if starts_ci(t, 0, "USING"@) {
            assert(t.subrange(0, 5)[0] == t[0]);
        }
    }
    assert(clause_end(t, 0) == -1);
    assert(eq_ignore_case(w, w));
    assert(starts_ci(t, 0, w));
    assert(word_ends(t, 0, n, '{'));
    assert(verb_at(t, 0));
}

/// The words that start a read-only SPARQL query.
pub open spec fn query_verb(k: int) -> Seq<char> {
    if k == 0 {
        "SELECT"@
    } else if k == 1 {
        "ASK"@
    } else if k == 2 {
        "CONSTRUCT"@
    } else {
        "DESCRIBE"@
    }
}

proof fn lemma_not_word(t: Seq<char>, k: int, u: Seq<char>, i: int)
    requires
        0 <= k,
        0 <= i < u.len(),
        k + i < t.len(),
        upper_spec(t[k + i]) != upper_spec(u[i]),
    ensures
        !starts_ci(t, k, u),
{
    if starts_ci(t, k, u) {
        assert(t.subrange(k, k + u.len())[i] == t[k + i]);
    }
}

/// Law: a request whose first word is one of the read-only query forms (`SELECT`, `ASK`,
/// `CONSTRUCT`, `DESCRIBE`), followed by a blank and anything at all, is not an update.
#[verifier::spinoff_prover]
#[verifier::rlimit(50)]
pub proof fn law_query_verbs(k: int, rest: Seq<char>)
    requires
        0 <= k < 4,
    ensures
        !update_from(query_verb(k) + " "@ + rest, 0),
{
    reveal_strlit("SELECT");
    reveal_strlit("ASK");
    reveal_strlit("CONSTRUCT");
    reveal_strlit("DESCRIBE");
    reveal_strlit("INSERT");
    reveal_strlit("DELETE");
    reveal_strlit("LOAD");
    reveal_strlit("CLEAR");
    reveal_strlit("CREATE");
    reveal_strlit("DROP");
    reveal_strlit("MOVE");
    reveal_strlit("COPY");
    reveal_strlit("ADD");
    reveal_strlit(" ");
    reveal_strlit("PREFIX");
    reveal_strlit("BASE");
    reveal_strlit("WITH");
    reveal_strlit("USING");
    let w = query_verb(k);
    let t = w + " "@ + rest;
    assert(t[0] == w[0] && t[1] == w[1] && t[2] == w[2]);
    assert(!is_ws(t[0]));
    assert(skip_ws(t, 0) == 0);
    lemma_not_word(t, 0, "PREFIX"@, 0);
    lemma_not_word(t, 0, "BASE"@, 0);
    lemma_not_word(t, 0, "WITH"@, 0);
    lemma_not_word(t, 0, "USING"@, 0);
    assert(clause_end(t, 0) == -1);
    if k == 0 {
        lemma_not_word(t, 0, "INSERT"@, 0);
        lemma_not_word(t, 0, "DELETE"@, 0);
        lemma_not_word(t, 0, "LOAD"@, 0);
        lemma_not_word(t, 0, "CLEAR"@, 0);
        lemma_not_word(t, 0, "CREATE"@, 0);
        lemma_not_word(t, 0, "DROP"@, 0);
        lemma_not_word(t, 0, "MOVE"@, 0);
        lemma_not_word(t, 0, "COPY"@, 0);
        lemma_not_word(t, 0, "ADD"@, 0);
    } else if k == 1 {
        lemma_not_word(t, 0, "INSERT"@, 0);
        lemma_not_word(t, 0, "DELETE"@, 0);
        lemma_not_word(t, 0, "LOAD"@, 0);
        lemma_not_word(t, 0, "CLEAR"@, 0);
        lemma_not_word(t, 0, "CREATE"@, 0);
        lemma_not_word(t, 0, "DROP"@, 0);
        lemma_not_word(t, 0, "MOVE"@, 0);
        lemma_not_word(t, 0, "COPY"@, 0);
        lemma_not_word(t, 0, "ADD"@, 1);
    } else if k == 2 {
        lemma_not_word(t, 0, "INSERT"@, 0);
        lemma_not_word(t, 0, "DELETE"@, 0);
        lemma_not_word(t, 0, "LOAD"@, 0);
        lemma_not_word(t, 0, "CLEAR"@, 1);
        lemma_not_word(t, 0, "CREATE"@, 1);
        lemma_not_word(t, 0, "DROP"@, 0);
        lemma_not_word(t, 0, "MOVE"@, 0);
        lemma_not_word(t, 0, "COPY"@, 2);
        lemma_not_word(t, 0, "ADD"@, 0);
    } else {
        lemma_not_word(t, 0, "INSERT"@, 0);
        lemma_not_word(t, 0, "DELETE"@, 2);
        lemma_not_word(t, 0, "LOAD"@, 0);
        lemma_not_word(t, 0, "CLEAR"@, 0);
        lemma_not_word(t, 0, "CREATE"@, 0);
        lemma_not_word(t, 0, "DROP"@, 1);
        lemma_not_word(t, 0, "MOVE"@, 0);
        lemma_not_word(t, 0, "COPY"@, 0);
        lemma_not_word(t, 0, "ADD"@, 0);
    }
    assert(!verb_at(t, 0));
}

/// Law: the update verbs are recognised in any ASCII case: a request that reads, once
/// upper-cased, as an update verb followed by a blank is an update.
pub proof fn law_update_verbs_any_case(k: int, t: Seq<char>, rest: Seq<char>)
    requires
        0 <= k < 9,
        ascii_upper(t) == update_verb(k) + " "@ + rest,
    ensures
        update_from(t, 0),
{
    law_update_ignores_ascii_case(t, 0);
    law_update_verbs(k, rest);
}

} // verus!
