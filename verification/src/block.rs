//! Surgery inside one Turtle statement: the objects of a predicate, the span removed with an
//! object, and the clean-up of separators left behind.
use vstd::prelude::*;
use crate::lex::{
    bracket_end, bracket_end_exec, find_predicate_token, find_predicate_token_exec, is_lex_start,
    is_terminating_dot, lemma_bracket_close_range, lemma_pred_token_range, lex_step,
    lex_step_exec, terminating_dot, token_match, Lex,
};
use crate::literal::{literal_value, literal_value_exec, normalize_ws, normalize_ws_exec};
use crate::span::pairs_int;
use crate::text::{
    ascii_ws, is_ascii_ws, lemma_line_bounds, lemma_skip_ws_bounds, line_at, line_bounds,
    line_starts_from, push_all, replace_all, replace_str, seq_eq, skip_ws, skip_ws_exec,
    slice_chars, trim, trim_exec,
};

verus! {

/// End of an unbracketed object starting at `pos`: the first `,`, `;` or terminating `.` in
/// code context (comments, strings and IRIs skipped), else the end of the text.
pub open spec fn named_end_from(t: Seq<char>, pos: int, lex: Lex) -> int
    decreases t.len() - pos,
{
    if pos < 0 || pos >= t.len() {
        t.len() as int
    } else if lex != Lex::Code || is_lex_start(t, pos) {
        let (j, m) = lex_step(t, pos, lex);
        named_end_from(t, j, m)
    } else if t[pos] == ',' || t[pos] == ';' || is_terminating_dot(t, pos) {
        pos
    } else {
        named_end_from(t, pos + 1, lex)
    }
}

pub proof fn lemma_named_end_range(t: Seq<char>, pos: int, lex: Lex)
    requires
        0 <= pos <= t.len(),
    ensures
        pos <= named_end_from(t, pos, lex) <= t.len(),
    decreases t.len() - pos,
{
    if pos < t.len() {
        let (j, m) = lex_step(t, pos, lex);
        lemma_named_end_range(t, j, m);
        lemma_named_end_range(t, pos + 1, lex);
    }
}

pub fn named_end_exec(t: &[char], start: usize) -> (r: usize)
    requires
        start <= t.len(),
    ensures
        r as int == named_end_from(t@, start as int, Lex::Code),
        start <= r <= t.len(),
{
    proof {
        lemma_named_end_range(t@, start as int, Lex::Code);
    }
    let mut i = start;
    let mut lex = Lex::Code;
    while i < t.len()
        invariant
            start <= i <= t.len(),
            named_end_from(t@, start as int, Lex::Code) == named_end_from(t@, i as int, lex),
        decreases t.len() - i,
    {
        if lex != Lex::Code || (t[i] == '#' || t[i] == '"' || t[i] == '\'' || t[i] == '<') {
            let (j, m) = lex_step_exec(t, i, lex);
            i = j;
            lex = m;
        } else if t[i] == ',' || t[i] == ';' || terminating_dot(t, i) {
            return i;
        } else {
            i += 1;
        }
    }
    t.len()
}

/// The objects of a predicate whose value list starts at `i` (`objects_in_predicate_value`):
/// bracketed blank nodes or named terms, separated by `,`, up to `;` or `.`.
pub open spec fn objects_from(b: Seq<char>, i: int) -> Seq<(int, int)>
    decreases b.len() - i,
{
    if i < 0 || i > b.len() {
        Seq::empty()
    } else {
        let j = skip_ws(b, i);
        if j >= b.len() || b[j] == ';' || b[j] == '.' {
            Seq::empty()
        } else {
            let e_opt = if b[j] == '[' {
                bracket_end(b, j)
            } else {
                Some(named_end_from(b, j, Lex::Code))
            };
            match e_opt {
                None => Seq::empty(),
                Some(e) => {
                    proof {
                        lemma_skip_ws_bounds(b, i);
                        lemma_bracket_close_range(b, j, Lex::Code, 0);
                        lemma_named_end_range(b, j, Lex::Code);
                        lemma_skip_ws_bounds(b, e);
                    }
                    let k = skip_ws(b, e);
                    seq![(j, e)] + (if k < b.len() && b[k] == ',' {
                        objects_from(b, k + 1)
                    } else {
                        Seq::empty()
                    })
                },
            }
        }
    }
}

pub proof fn lemma_objects_range(b: Seq<char>, i: int)
    requires
        0 <= i,
    ensures
        forall|k: int|
            0 <= k < objects_from(b, i).len() ==> i <= (#[trigger] objects_from(b, i)[k]).0
                <= objects_from(b, i)[k].1 <= b.len(),
    decreases b.len() - i,
{
    if i <= b.len() {
        lemma_skip_ws_bounds(b, i);
        let j = skip_ws(b, i);
        if !(j >= b.len() || b[j] == ';' || b[j] == '.') {
            lemma_bracket_close_range(b, j, Lex::Code, 0);
            lemma_named_end_range(b, j, Lex::Code);
            let e_opt = if b[j] == '[' {
                bracket_end(b, j)
            } else {
                Some(named_end_from(b, j, Lex::Code))
            };
            match e_opt {
                None => {},
                Some(e) => {
                    lemma_skip_ws_bounds(b, e);
                    let k = skip_ws(b, e);
                    let rest = if k < b.len() && b[k] == ',' {
                        objects_from(b, k + 1)
                    } else {
                        Seq::empty()
                    };
                    if k < b.len() && b[k] == ',' {
                        lemma_objects_range(b, k + 1);
                    }
                    let all = objects_from(b, i);
                    assert(all == seq![(j, e)] + rest);
                    assert forall|m: int| 0 <= m < all.len() implies i <= (#[trigger] all[m]).0
                        <= all[m].1 <= b.len() by {
                        if m > 0 {
                            assert(all[m] == rest[m - 1]);
                        }
                    }
                },
            }
        }
    }
}

pub fn objects_exec(b: &[char], start: usize) -> (r: Vec<(usize, usize)>)
    requires
        start <= b.len(),
    ensures
        pairs_int(r@) == objects_from(b@, start as int),
        forall|k: int| 0 <= k < r@.len() ==> start <= (#[trigger] r@[k]).0 <= r@[k].1 <= b.len(),
{
    proof {
        lemma_objects_range(b@, start as int);
    }
    let mut out: Vec<(usize, usize)> = Vec::new();
    let mut i = start;
    let mut done = false;
    while !done
        invariant
            start <= i <= b.len(),
            pairs_int(out@) + (if done {
                Seq::empty()
            } else {
                objects_from(b@, i as int)
            }) == objects_from(b@, start as int),
            forall|k: int| 0 <= k < out@.len() ==> start <= (#[trigger] out@[k]).0 <= out@[k].1 <= b.len(),
        decreases b.len() - i + (if done { 0int } else { 1int }),
    {
        let j = skip_ws_exec(b, i);
        proof {
            lemma_skip_ws_bounds(b@, i as int);
        }
        if j >= b.len() || b[j] == ';' || b[j] == '.' {
            done = true;
            assert(pairs_int(out@) + Seq::<(int, int)>::empty() =~= pairs_int(out@));
        } else {
            let e_opt = if b[j] == '[' {
                bracket_end_exec(b, j)
            } else {
                Some(named_end_exec(b, j))
            };
            match e_opt {
                None => {
                    done = true;
                    assert(pairs_int(out@) + Seq::<(int, int)>::empty() =~= pairs_int(out@));
                },
                Some(e) => {
                    let ghost before = pairs_int(out@);
                    out.push((j, e));
                    assert(pairs_int(out@) =~= before + seq![(j as int, e as int)]);
                    let k = skip_ws_exec(b, e);
                    proof {
                        lemma_skip_ws_bounds(b@, e as int);
                    }
                    if k < b.len() && b[k] == ',' {
                        assert(pairs_int(out@) + objects_from(b@, k + 1) =~= before + (seq![
                            (j as int, e as int),
                        ] + objects_from(b@, k + 1)));
                        i = k + 1;
                    } else {
                        assert(pairs_int(out@) + Seq::<(int, int)>::empty() =~= before + (seq![
                            (j as int, e as int),
                        ] + Seq::<(int, int)>::empty()));
                        done = true;
                    }
                },
            }
        }
    }
    out
}

/// Start of the run of ASCII whitespace ending at `i`.
pub open spec fn back_ws(b: Seq<char>, i: int) -> int
    decreases i,
{
    if i <= 0 || i > b.len() {
        if i <= 0 { 0 } else { i }
    } else if is_ascii_ws(b[i - 1]) {
        back_ws(b, i - 1)
    } else {
        i
    }
}

/// End of the run of ASCII whitespace starting at `i`.
pub open spec fn fwd_ws(b: Seq<char>, i: int) -> int
    decreases b.len() - i,
{
    if i < 0 || i >= b.len() {
        i
    } else if is_ascii_ws(b[i]) {
        fwd_ws(b, i + 1)
    } else {
        i
    }
}

proof fn lemma_back_ws(b: Seq<char>, i: int)
    requires
        0 <= i <= b.len(),
    ensures
        0 <= back_ws(b, i) <= i,
    decreases i,
{
    if i > 0 && is_ascii_ws(b[i - 1]) {
        lemma_back_ws(b, i - 1);
    }
}

proof fn lemma_fwd_ws(b: Seq<char>, i: int)
    requires
        0 <= i <= b.len(),
    ensures
        i <= fwd_ws(b, i) <= b.len(),
    decreases b.len() - i,
{
    if i < b.len() && is_ascii_ws(b[i]) {
        lemma_fwd_ws(b, i + 1);
    }
}

fn back_ws_exec(b: &[char], i: usize) -> (r: usize)
    requires
        i <= b.len(),
    ensures
        r as int == back_ws(b@, i as int),
        r <= i,
{
    proof {
        lemma_back_ws(b@, i as int);
    }
    let mut k = i;
    while k > 0 && ascii_ws(b[k - 1])
        invariant
            k <= i <= b.len(),
            back_ws(b@, i as int) == back_ws(b@, k as int),
        decreases k,
    {
        k -= 1;
    }
    k
}

fn fwd_ws_exec(b: &[char], i: usize) -> (r: usize)
    requires
        i <= b.len(),
    ensures
        r as int == fwd_ws(b@, i as int),
        i <= r <= b.len(),
{
    proof {
        lemma_fwd_ws(b@, i as int);
    }
    let mut k = i;
    while k < b.len() && ascii_ws(b[k])
        invariant
            i <= k <= b.len(),
            fwd_ws(b@, i as int) == fwd_ws(b@, k as int),
        decreases b.len() - k,
    {
        k += 1;
    }
    k
}

/// Span removed with the object `s..e` of the predicate at `p` (`extend_removal_span`): the
/// predicate too when it has no other object; surrounding whitespace and one separator.
pub open spec fn removal_span(b: Seq<char>, p: int, s: int, e: int, only: bool) -> (int, int) {
    let s1 = back_ws(b, if only { p } else { s });
    let s2 = if !only && s1 > 0 && b[s1 - 1] == ',' {
        back_ws(b, s1 - 1)
    } else {
        s1
    };
    let e1 = fwd_ws(b, e);
    let e2 = if e1 < b.len() && (b[e1] == ',' || b[e1] == ';') {
        e1 + 1
    } else {
        e1
    };
    (s2, e2)
}

pub fn removal_span_pub(b: &[char], p: usize, s: usize, e: usize, only: bool) -> (r: (usize, usize))
    requires
        p <= s <= e <= b.len(),
    ensures
        (r.0 as int, r.1 as int) == removal_span(b@, p as int, s as int, e as int, only),
        r.0 <= s,
        e <= r.1 <= b.len(),
{
    removal_span_exec(b, p, s, e, only)
}

fn removal_span_exec(b: &[char], p: usize, s: usize, e: usize, only: bool) -> (r: (usize, usize))
    requires
        p <= s <= e <= b.len(),
    ensures
        (r.0 as int, r.1 as int) == removal_span(b@, p as int, s as int, e as int, only),
        r.0 <= s,
        e <= r.1 <= b.len(),
        only ==> r.0 <= p,
{
    let s1 = back_ws_exec(b, if only { p } else { s });
    let s2 = if !only && s1 > 0 && b[s1 - 1] == ',' {
        back_ws_exec(b, s1 - 1)
    } else {
        s1
    };
    let e1 = fwd_ws_exec(b, e);
    let e2 = if e1 < b.len() && (b[e1] == ',' || b[e1] == ';') {
        e1 + 1
    } else {
        e1
    };
    (s2, e2)
}

/// The lines of `t` (`str::lines`).
pub open spec fn lines_of(t: Seq<char>) -> Seq<Seq<char>> {
    line_starts_from(t, 0).map_values(|i: int| line_at(t, i))
}

/// `ls` without its trailing blank lines.
pub open spec fn drop_blank_tail(ls: Seq<Seq<char>>) -> Seq<Seq<char>>
    decreases ls.len(),
{
    if ls.len() > 0 && trim(ls.last()).len() == 0 {
        drop_blank_tail(ls.drop_last())
    } else {
        ls
    }
}

/// Lines joined by `\n`.
pub open spec fn join_lines(ls: Seq<Seq<char>>) -> Seq<char>
    decreases ls.len(),
{
    if ls.len() == 0 {
        Seq::empty()
    } else if ls.len() == 1 {
        ls[0]
    } else {
        join_lines(ls.drop_last()) + seq!['\n'] + ls.last()
    }
}

/// Statement text after an object was cut out (`cleanup_block_separators`): trailing blank
/// lines dropped, lines re-joined with `\n`, and doubled `;` / `,` separator lines collapsed.
pub open spec fn cleanup(b: Seq<char>) -> Seq<char> {
    replace_all(
        replace_all(join_lines(drop_blank_tail(lines_of(b))), ";\n    ;"@, ";\n"@),
        ",\n        ,"@,
        ",\n"@,
    )
}

fn lines_exec(t: &[char]) -> (r: Vec<Vec<char>>)
    ensures
        r@.map_values(|v: Vec<char>| v@) == lines_of(t@),
{
    let mut out: Vec<Vec<char>> = Vec::new();
    let mut i: usize = 0;
    let ghost all = line_starts_from(t@, 0);
    while i < t.len()
        invariant
            i <= t.len(),
            all == line_starts_from(t@, 0),
            out@.map_values(|v: Vec<char>| v@) + line_starts_from(t@, i as int).map_values(
                |k: int| line_at(t@, k),
            ) == all.map_values(|k: int| line_at(t@, k)),
        decreases t.len() - i,
    {
        let (ce, nl) = line_bounds(t, i);
        let line = slice_chars(t, i, ce);
        proof {
            lemma_line_bounds(t@, i as int);
        }
        let next = if nl >= t.len() { t.len() } else { nl + 1 };
        let ghost before = out@.map_values(|v: Vec<char>| v@);
        let ghost rest = line_starts_from(t@, next as int);
        assert(line_starts_from(t@, i as int) == seq![i as int] + line_starts_from(t@, nl + 1));
        if nl >= t.len() {
            assert(line_starts_from(t@, nl + 1) == Seq::<int>::empty());
            assert(line_starts_from(t@, t.len() as int) == Seq::<int>::empty());
        }
        assert(line@ == line_at(t@, i as int));
        out.push(line);
        assert(out@.map_values(|v: Vec<char>| v@) =~= before.push(line_at(t@, i as int)));
        assert((seq![i as int] + rest).map_values(|k: int| line_at(t@, k)) =~= seq![
            line_at(t@, i as int),
        ] + rest.map_values(|k: int| line_at(t@, k)));
        assert(out@.map_values(|v: Vec<char>| v@) + rest.map_values(|k: int| line_at(t@, k))
            =~= before + (seq![line_at(t@, i as int)] + rest.map_values(|k: int| line_at(t@, k))));
        i = next;
    }
    assert(line_starts_from(t@, i as int) == Seq::<int>::empty());
    assert(out@.map_values(|v: Vec<char>| v@) + Seq::<Seq<char>>::empty() =~= out@.map_values(
        |v: Vec<char>| v@,
    ));
    out
}

/// Clean up separators after an object was removed (`cleanup_block_separators`).
pub fn cleanup_exec(b: &[char]) -> (r: Vec<char>)
    ensures
        r@ == cleanup(b@),
{
    let lines = lines_exec(b);
    let ghost ls = lines@.map_values(|v: Vec<char>| v@);
    let mut n = lines.len();
    assert(ls.take(n as int) =~= ls);
    while n > 0 && trim_exec(lines[n - 1].as_slice()).len() == 0
        invariant
            n <= lines@.len(),
            ls == lines@.map_values(|v: Vec<char>| v@),
            drop_blank_tail(ls) == drop_blank_tail(ls.take(n as int)),
        decreases n,
    {
        assert(ls.take(n as int).last() == lines@[n - 1]@);
        assert(ls.take(n as int).drop_last() =~= ls.take(n - 1));
        n -= 1;
    }
    let ghost kept = ls.take(n as int);
    assert(n > 0 ==> kept.last() == lines@[n - 1]@);
    assert(drop_blank_tail(ls) == kept);
    let mut joined: Vec<char> = Vec::new();
    let mut k: usize = 0;
    while k < n
        invariant
            k <= n <= lines@.len(),
            ls == lines@.map_values(|v: Vec<char>| v@),
            kept == ls.take(n as int),
            joined@ == join_lines(kept.take(k as int)),
        decreases n - k,
    {
        let ghost prev = kept.take(k as int);
        assert(kept.take(k + 1).drop_last() =~= prev);
        assert(kept.take(k + 1).last() == lines@[k as int]@);
        if k > 0 {
            joined.push('\n');
        } else {
            assert(kept.take(1) =~= seq![lines@[0]@]);
        }
        push_all(&mut joined, lines[k].as_slice());
        assert(k > 0 ==> joined@ =~= join_lines(prev) + seq!['\n'] + lines@[k as int]@);
        k += 1;
    }
    assert(kept.take(n as int) =~= kept);
    proof {
        reveal_strlit(";\n    ;");
        reveal_strlit(",\n        ,");
    }
    let a = replace_str(joined.as_slice(), ";\n    ;", ";\n");
    replace_str(a.as_slice(), ",\n        ,", ",\n")
}

/// `s` without leading and trailing `<` / `>` characters.
pub open spec fn strip_angles(s: Seq<char>) -> Seq<char>
    decreases s.len(),
{
    if s.len() > 0 && (s[0] == '<' || s[0] == '>') {
        strip_angles(s.drop_first())
    } else if s.len() > 0 && (s.last() == '<' || s.last() == '>') {
        strip_angles(s.drop_last())
    } else {
        s
    }
}

/// Object text compared against a normalised target, by `mode`: 0 the normalised term text,
/// 1 the normalised lexical value of a literal, 2 that value or, for a non-literal, the
/// normalised term without its angle brackets.
pub open spec fn obj_matches(o: Seq<char>, mode: u8, target: Seq<char>) -> bool {
    if mode == 0 {
        normalize_ws(o) == target
    } else {
        match literal_value(o) {
            Some(l) => normalize_ws(l) == target,
            None => mode == 2 && normalize_ws(strip_angles(trim(o))) == target,
        }
    }
}

fn strip_angles_exec(s: &[char]) -> (r: Vec<char>)
    ensures
        r@ == strip_angles(s@),
{
    let mut a: usize = 0;
    let mut b: usize = s.len();
    assert(s@.subrange(0, s@.len() as int) =~= s@);
    while a < b && (s[a] == '<' || s[a] == '>' || s[b - 1] == '<' || s[b - 1] == '>')
        invariant
            a <= b <= s.len(),
            strip_angles(s@) == strip_angles(s@.subrange(a as int, b as int)),
        decreases b - a,
    {
        let ghost cur = s@.subrange(a as int, b as int);
        if s[a] == '<' || s[a] == '>' {
            assert(cur.drop_first() =~= s@.subrange(a + 1, b as int));
            a += 1;
        } else {
            assert(cur.drop_last() =~= s@.subrange(a as int, b - 1));
            b -= 1;
        }
    }
    slice_chars(s, a, b)
}

/// Index of the first object of `objs` matching `target`.
pub open spec fn first_obj_match(
    b: Seq<char>,
    objs: Seq<(int, int)>,
    mode: u8,
    target: Seq<char>,
) -> Option<int>
    decreases objs.len(),
{
    if objs.len() == 0 {
        None
    } else if obj_matches(trim(b.subrange(objs[0].0, objs[0].1)), mode, target) {
        Some(0)
    } else {
        match first_obj_match(b, objs.drop_first(), mode, target) {
            Some(k) => Some(k + 1),
            None => None,
        }
    }
}

proof fn lemma_first_obj_match(b: Seq<char>, objs: Seq<(int, int)>, mode: u8, target: Seq<char>)
    ensures
        first_obj_match(b, objs, mode, target) matches Some(k) ==> 0 <= k < objs.len(),
    decreases objs.len(),
{
    if objs.len() > 0 {
        lemma_first_obj_match(b, objs.drop_first(), mode, target);
    }
}

/// First predicate occurrence at or after `from` with an object matching `target`:
/// `(predicate index, its objects, matching object index)`.
pub open spec fn match_from(
    b: Seq<char>,
    pred: Seq<char>,
    mode: u8,
    target: Seq<char>,
    from: int,
) -> Option<(int, Seq<(int, int)>, int)>
    decreases b.len() - from,
{
    if from < 0 {
        None
    } else {
        match find_predicate_token(b, from, pred) {
            None => None,
            Some(p) => {
                proof {
                    lemma_pred_token_range(b, from, Lex::Code, 0, pred);
                }
                let objs = objects_from(b, p + pred.len());
                match first_obj_match(b, objs, mode, target) {
                    Some(k) => Some((p, objs, k)),
                    None => if p < from || p >= b.len() {
                        None
                    } else {
                        match_from(b, pred, mode, target, p + 1)
                    },
                }
            },
        }
    }
}

/// `b` with the characters `s..e` cut out.
pub open spec fn splice(b: Seq<char>, s: int, e: int) -> Seq<char> {
    b.take(s) + b.skip(e)
}

/// Remove the first object matching `target` (with its predicate when it was the only one)
/// and clean up (`remove_matching_predicate_object` / `…_by_lexical_value`).
pub open spec fn remove_match(b: Seq<char>, pred: Seq<char>, mode: u8, target: Seq<char>) -> Option<
    Seq<char>,
> {
    match match_from(b, pred, mode, target, 0) {
        None => None,
        Some((p, objs, k)) => {
            let (rs, re) = removal_span(b, p, objs[k].0, objs[k].1, objs.len() == 1);
            Some(cleanup(splice(b, rs, re)))
        },
    }
}

/// Text of `b[s..e]` trimmed.
fn trimmed_slice(b: &[char], s: usize, e: usize) -> (r: Vec<char>)
    requires
        s <= e <= b.len(),
    ensures
        r@ == trim(b@.subrange(s as int, e as int)),
{
    let x = slice_chars(b, s, e);
    trim_exec(x.as_slice())
}

fn obj_matches_exec(o: &[char], mode: u8, target: &[char]) -> (r: bool)
    ensures
        r == obj_matches(o@, mode, target@),
{
    if mode == 0 {
        let n = normalize_ws_exec(o);
        return seq_eq(n.as_slice(), target);
    }
    match literal_value_exec(o) {
        Some(l) => {
            let n = normalize_ws_exec(l.as_slice());
            seq_eq(n.as_slice(), target)
        },
        None => {
            if mode != 2 {
                return false;
            }
            let t = trim_exec(o);
            let b = strip_angles_exec(t.as_slice());
            let n = normalize_ws_exec(b.as_slice());
            seq_eq(n.as_slice(), target)
        },
    }
}

/// The predicate position, objects and matching object index found by `match_from`.
pub fn match_exec(b: &[char], pred: &[char], mode: u8, target: &[char]) -> (r: Option<
    (usize, Vec<(usize, usize)>, usize),
>)
    ensures
        match r {
            Some((p, objs, k)) => match_from(b@, pred@, mode, target@, 0) == Some(
                (p as int, pairs_int(objs@), k as int),
            ) && k < objs@.len() && p + pred@.len() <= objs@[k as int].0 <= objs@[k as int].1
                <= b.len() && p < b.len(),
            None => match_from(b@, pred@, mode, target@, 0) is None,
        },
{
    let mut from: usize = 0;
    while from < b.len()
        invariant
            from <= b.len(),
            match_from(b@, pred@, mode, target@, 0) == match_from(
                b@,
                pred@,
                mode,
                target@,
                from as int,
            ),
        decreases b.len() - from,
    {
        match find_predicate_token_exec(b, from, pred) {
            None => {
                return None;
            },
            Some(p) => {
                proof {
                    lemma_pred_token_range(b@, from as int, Lex::Code, 0, pred@);
                }
                assert(p + pred@.len() <= b@.len()) by {
                    assert(token_match(b@, p as int, pred@));
                }
                let objs = objects_exec(b, p + pred.len());
                let mut k: usize = 0;
                let ghost po = pairs_int(objs@);
                assert(po.skip(0) =~= po);
                while k < objs.len()
                    invariant
                        k <= objs@.len(),
                        po == pairs_int(objs@),
                        from <= p < b@.len(),
                        find_predicate_token(b@, from as int, pred@) == Some(p as int),
                        po == objects_from(b@, p + pred@.len()),
                        match_from(b@, pred@, mode, target@, 0) == match_from(
                            b@,
                            pred@,
                            mode,
                            target@,
                            from as int,
                        ),
                        forall|j: int| 0 <= j < objs@.len() ==> p + pred@.len() <= (#[trigger] objs@[j]).0
                            <= objs@[j].1 <= b.len(),
                        first_obj_match(b@, po, mode, target@) == match first_obj_match(
                            b@,
                            po.skip(k as int),
                            mode,
                            target@,
                        ) {
                            Some(m) => Some(m + k),
                            None => None,
                        },
                    decreases objs@.len() - k,
                {
                    let (s, e) = objs[k];
                    let o = trimmed_slice(b, s, e);
                    assert(po.skip(k as int)[0] == (s as int, e as int));
                    assert(po.skip(k as int).drop_first() =~= po.skip(k + 1));
                    if obj_matches_exec(o.as_slice(), mode, target) {
                        assert(first_obj_match(b@, po.skip(k as int), mode, target@) == Some(0int));
                        assert(first_obj_match(b@, po, mode, target@) == Some(k as int));
                        assert(match_from(b@, pred@, mode, target@, from as int) == Some(
                            (p as int, po, k as int),
                        ));
                        return Some((p, objs, k));
                    }
                    k += 1;
                }
                assert(po.skip(k as int) =~= Seq::<(int, int)>::empty());
                from = p + 1;
            },
        }
    }
    assert(find_predicate_token(b@, from as int, pred@) is None);
    None
}

/// Remove the first matching object (`remove_matching_predicate_object` when `mode` is
/// false, `remove_matching_predicate_by_lexical_value` when true); `target` is normalised.
pub fn remove_match_exec(b: &[char], pred: &[char], mode: u8, target: &[char]) -> (r: Option<
    Vec<char>,
>)
    ensures
        match r {
            Some(v) => remove_match(b@, pred@, mode, target@) == Some(v@),
            None => remove_match(b@, pred@, mode, target@) is None,
        },
{
    match match_exec(b, pred, mode, target) {
        None => None,
        Some((p, objs, k)) => {
            let (s, e) = objs[k];
            assert(pairs_int(objs@)[k as int] == (s as int, e as int));
            let (rs, re) = removal_span_exec(b, p, s, e, objs.len() == 1);
            let mut cut = slice_chars(b, 0, rs);
            let tail = slice_chars(b, re, b.len());
            push_all(&mut cut, tail.as_slice());
            assert(cut@ =~= splice(b@, rs as int, re as int));
            Some(cleanup_exec(cut.as_slice()))
        },
    }
}

/// Remove the first object of the first occurrence of `pred` (`remove_first_predicate_object`).
pub open spec fn remove_first(b: Seq<char>, pred: Seq<char>) -> Option<Seq<char>> {
    match find_predicate_token(b, 0, pred) {
        None => None,
        Some(p) => {
            let objs = objects_from(b, p + pred.len());
            if objs.len() == 0 {
                None
            } else {
                let (rs, re) = removal_span(b, p, objs[0].0, objs[0].1, objs.len() == 1);
                Some(cleanup(splice(b, rs, re)))
            }
        },
    }
}

pub fn remove_first_exec(b: &[char], pred: &[char]) -> (r: Option<Vec<char>>)
    ensures
        match r {
            Some(v) => remove_first(b@, pred@) == Some(v@),
            None => remove_first(b@, pred@) is None,
        },
{
    match find_predicate_token_exec(b, 0, pred) {
        None => None,
        Some(p) => {
            proof {
                lemma_pred_token_range(b@, 0, Lex::Code, 0, pred@);
            }
            assert(token_match(b@, p as int, pred@));
            assert(p + pred@.len() <= b@.len());
            let blen = b.len();
            let start = p + pred.len();
            let objs = objects_exec(b, start);
            if objs.len() == 0 {
                return None;
            }
            let (s, e) = objs[0];
            assert(pairs_int(objs@)[0] == (s as int, e as int));
            let (rs, re) = removal_span_exec(b, p, s, e, objs.len() == 1);
            let mut cut = slice_chars(b, 0, rs);
            let tail = slice_chars(b, re, b.len());
            push_all(&mut cut, tail.as_slice());
            assert(cut@ =~= splice(b@, rs as int, re as int));
            Some(cleanup_exec(cut.as_slice()))
        },
    }
}

/// Repeated removal of the first object of `pred`, at most `fuel` times, then clean-up.
pub open spec fn remove_all_objects_fuel(b: Seq<char>, pred: Seq<char>, fuel: nat) -> Seq<char>
    decreases fuel,
{
    if fuel == 0 {
        cleanup(b)
    } else {
        match remove_first(b, pred) {
            None => cleanup(b),
            Some(n) => remove_all_objects_fuel(n, pred, (fuel - 1) as nat),
        }
    }
}

/// Remove every object of `pred` from a statement (`remove_all_predicate_objects`); each
/// removal shortens the text, so the text length bounds the rounds.
pub open spec fn remove_all_objects(b: Seq<char>, pred: Seq<char>) -> Seq<char> {
    remove_all_objects_fuel(b, pred, (b.len() + 1) as nat)
}

pub fn remove_all_objects_exec(b: &[char], pred: &[char]) -> (r: Vec<char>)
    ensures
        r@ == remove_all_objects(b@, pred@),
{
    let mut cur = slice_chars(b, 0, b.len());
    assert(cur@ =~= b@);
    let mut fuel: usize = b.len();
    let mut done = false;
    while !done
        invariant
            remove_all_objects(b@, pred@) == if done {
                cur@
            } else {
                remove_all_objects_fuel(cur@, pred@, (fuel + 1) as nat)
            },
        decreases fuel + (if done { 0int } else { 1int }),
    {
        match remove_first_exec(cur.as_slice(), pred) {
            None => {
                let c = cleanup_exec(cur.as_slice());
                cur = c;
                done = true;
            },
            Some(n) => {
                if fuel == 0 {
                    assert(remove_all_objects_fuel(n@, pred@, 0) == cleanup(n@));
                    let c = cleanup_exec(n.as_slice());
                    cur = c;
                    done = true;
                } else {
                    cur = n;
                    fuel -= 1;
                }
            },
        }
    }
    cur
}

} // verus!
