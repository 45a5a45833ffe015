//! Prefix declarations and the ontology header of a Turtle document.
use vstd::prelude::*;
use crate::error::{err2, err_of, outcome, ErrKind, OwlError, Outcome};
use crate::iri::{
    debug_rendering, debug_text, safe_iri_chars, is_valid_prefix_name, safe_iri,
    unsafe_iri_detail, valid_prefix_name,
};
use crate::text::{
    chars_of, eq_ignore_case, eq_ignore_case_exec, is_ws, lemma_next_char_bounds,
    lemma_skip_ws_bounds, line_bounds, next_char, push_all, push_str, skip_ws, skip_ws_exec,
    slice_chars, starts_with, starts_with_exec, token_after, token_after_exec, ws, next_ws,
    next_ws_exec, lemma_next_ws_bounds, next_char_exec, contains,
};

verus! {

/// End of the `split_inclusive('\n')` segment starting at `i`.
pub open spec fn seg_end(t: Seq<char>, i: int) -> int {
    if next_char(t, i, '\n') < t.len() {
        next_char(t, i, '\n') + 1
    } else {
        t.len() as int
    }
}

pub proof fn lemma_seg_end(t: Seq<char>, i: int)
    requires
        0 <= i < t.len(),
    ensures
        i < seg_end(t, i) <= t.len(),
{
    lemma_next_char_bounds(t, i, '\n');
}

pub fn seg_end_exec(t: &[char], i: usize) -> (r: usize)
    requires
        i < t.len(),
    ensures
        r as int == seg_end(t@, i as int),
        i < r <= t.len(),
{
    proof {
        lemma_seg_end(t@, i as int);
    }
    let (_ce, nl) = line_bounds(t, i);
    if nl < t.len() {
        nl + 1
    } else {
        t.len()
    }
}

/// `@prefix` / `PREFIX` keyword, in any ASCII case.
pub open spec fn is_prefix_keyword(k: Seq<char>) -> bool {
    eq_ignore_case(k, "@prefix"@) || eq_ignore_case(k, "PREFIX"@)
}

/// Prefix declared by a line (`prefix_declaration_name`): the second word without its final
/// `:`, when the first word is a prefix keyword.
pub open spec fn decl_name(line: Seq<char>) -> Option<Seq<char>> {
    match token_after(line, 0) {
        None => None,
        Some((a, b)) => if !is_prefix_keyword(line.subrange(a, b)) {
            None
        } else {
            match token_after(line, b) {
                None => None,
                Some((c, d)) => if d > c && line[d - 1] == ':' {
                    Some(line.subrange(c, d - 1))
                } else {
                    None
                },
            }
        },
    }
}

fn is_prefix_keyword_exec(k: &[char]) -> (r: bool)
    ensures
        r == is_prefix_keyword(k@),
{
    let a = chars_of("@prefix");
    let b = chars_of("PREFIX");
    eq_ignore_case_exec(k, a.as_slice()) || eq_ignore_case_exec(k, b.as_slice())
}

pub fn decl_name_exec(line: &[char]) -> (r: Option<Vec<char>>)
    ensures
        match r {
            Some(v) => decl_name(line@) == Some(v@),
            None => decl_name(line@) is None,
        },
{
    match token_after_exec(line, 0) {
        None => None,
        Some((a, b)) => {
            let kw = slice_chars(line, a, b);
            if !is_prefix_keyword_exec(kw.as_slice()) {
                return None;
            }
            match token_after_exec(line, b) {
                None => None,
                Some((c, d)) => if d > c && line[d - 1] == ':' {
                    Some(slice_chars(line, c, d - 1))
                } else {
                    None
                },
            }
        },
    }
}

/// Some segment from `i` on declares prefix `p`.
pub open spec fn has_decl_from(t: Seq<char>, i: int, p: Seq<char>) -> bool
    decreases t.len() - i,
{
    if i < 0 || i >= t.len() {
        false
    } else {
        proof {
            lemma_seg_end(t, i);
        }
        decl_name(t.subrange(i, seg_end(t, i))) == Some(p) || has_decl_from(t, seg_end(t, i), p)
    }
}

/// End of the last segment from `i` on that declares a prefix (`acc` when none does).
pub open spec fn last_decl_end_from(t: Seq<char>, i: int, acc: int) -> int
    decreases t.len() - i,
{
    if i < 0 || i >= t.len() {
        acc
    } else {
        proof {
            lemma_seg_end(t, i);
        }
        let e = seg_end(t, i);
        last_decl_end_from(
            t,
            e,
            if decl_name(t.subrange(i, e)) is Some {
                e
            } else {
                acc
            },
        )
    }
}

/// Detail of the error for a malformed prefix name.
pub open spec fn bad_prefix_detail(p: Seq<char>) -> Seq<char> {
    "prefix must contain only letters, numbers, or underscores: "@ + debug_rendering(p)
}

/// A namespace IRI usable in a prefix declaration: safe and `http://` or `https://`.
pub open spec fn valid_namespace_iri(n: Seq<char>) -> bool {
    (starts_with(n, "http://"@) || starts_with(n, "https://"@)) && safe_iri(n)
}

/// The error `validate_prefix` reports, if any.
pub open spec fn prefix_error(p: Seq<char>, n: Seq<char>) -> Option<(ErrKind, Seq<char>)> {
    if !valid_prefix_name(p) {
        Some((ErrKind::PatchInvalid, bad_prefix_detail(p)))
    } else if !valid_namespace_iri(n) {
        Some(
            (
                ErrKind::PatchInvalid,
                "prefix namespace IRI must be a valid http(s) IRI: "@ + debug_rendering(n),
            ),
        )
    } else {
        None
    }
}

fn prefix_error_exec(p: &[char], n: &[char]) -> (r: Option<OwlError>)
    ensures
        match r {
            Some(e) => prefix_error(p@, n@) == Some(err_of(e)),
            None => prefix_error(p@, n@) is None,
        },
{
    if !is_valid_prefix_name(p) {
        let d = debug_text(p);
        return Some(
            err2(ErrKind::PatchInvalid, "prefix must contain only letters, numbers, or underscores: ", d.as_slice()),
        );
    }
    let http = chars_of("http://");
    let https = chars_of("https://");
    if !((starts_with_exec(n, http.as_slice()) || starts_with_exec(n, https.as_slice()))
        && safe_iri_chars(n)) {
        let d = debug_text(n);
        return Some(
            err2(ErrKind::PatchInvalid, "prefix namespace IRI must be a valid http(s) IRI: ", d.as_slice()),
        );
    }
    None
}

/// Check a prefix name and its namespace IRI for a prefix declaration (`validate_prefix`).
pub fn validate_prefix(prefix: &str, namespace_iri: &str) -> (r: Result<(), OwlError>)
    ensures
        match prefix_error(prefix@, namespace_iri@) {
            Some(e) => r matches Err(x) && err_of(x) == e,
            None => r is Ok,
        },
{
    let p = chars_of(prefix);
    let n = chars_of(namespace_iri);
    match prefix_error_exec(p.as_slice(), n.as_slice()) {
        Some(e) => Err(e),
        None => Ok(()),
    }
}

/// `@prefix p: <n> .` followed by a newline.
pub open spec fn prefix_line(p: Seq<char>, n: Seq<char>) -> Seq<char> {
    "@prefix "@ + p + ": <"@ + n + "> .\n"@
}

/// Add a prefix declaration after the last existing one (`add_prefix`).
pub open spec fn add_prefix_spec(t: Seq<char>, p: Seq<char>, n: Seq<char>) -> Outcome {
    match prefix_error(p, n) {
        Some(e) => Err(e),
        None => if has_decl_from(t, 0, p) {
            Err((ErrKind::PatchInvalid, "duplicate prefix already present: "@ + p))
        } else {
            let at = last_decl_end_from(t, 0, 0);
            let ins = if at > 0 && t[at - 1] != '\n' {
                "\n"@ + prefix_line(p, n)
            } else {
                prefix_line(p, n)
            };
            Ok(t.take(at) + ins + t.skip(at))
        },
    }
}

pub proof fn lemma_last_decl_end(t: Seq<char>, i: int, acc: int)
    requires
        0 <= i,
        0 <= acc <= t.len(),
    ensures
        0 <= last_decl_end_from(t, i, acc) <= t.len(),
    decreases t.len() - i,
{
    if i < t.len() {
        lemma_seg_end(t, i);
        let e = seg_end(t, i);
        lemma_last_decl_end(
            t,
            e,
            if decl_name(t.subrange(i, e)) is Some {
                e
            } else {
                acc
            },
        );
    }
}

pub fn add_prefix_exec(t: &[char], p: &[char], n: &[char]) -> (r: Result<Vec<char>, OwlError>)
    ensures
        outcome(r) == add_prefix_spec(t@, p@, n@),
{
    match prefix_error_exec(p, n) {
        Some(e) => {
            return Err(e);
        },
        None => {},
    }
    let mut i: usize = 0;
    let mut at: usize = 0;
    let mut dup = false;
    while i < t.len()
        invariant
            i <= t.len(),
            at <= t.len(),
            has_decl_from(t@, 0, p@) == (dup || has_decl_from(t@, i as int, p@)),
            last_decl_end_from(t@, 0, 0) == last_decl_end_from(t@, i as int, at as int),
        decreases t.len() - i,
    {
        let e = seg_end_exec(t, i);
        let seg = slice_chars(t, i, e);
        match decl_name_exec(seg.as_slice()) {
            Some(name) => {
                if crate::text::seq_eq(name.as_slice(), p) {
                    dup = true;
                }
                at = e;
            },
            None => {},
        }
        i = e;
    }
    if dup {
        return Err(err2(ErrKind::PatchInvalid, "duplicate prefix already present: ", p));
    }
    let mut decl = chars_of("@prefix ");
    push_all(&mut decl, p);
    push_str(&mut decl, ": <");
    push_all(&mut decl, n);
    push_str(&mut decl, "> .\n");
    let mut out = slice_chars(t, 0, at);
    if at > 0 && t[at - 1] != '\n' {
        out.push('\n');
    }
    push_all(&mut out, decl.as_slice());
    let tail = slice_chars(t, at, t.len());
    push_all(&mut out, tail.as_slice());
    proof {
        reveal_strlit("\n");
        assert(t@.take(at as int) == t@.subrange(0, at as int));
        assert(t@.skip(at as int) == t@.subrange(at as int, t@.len() as int));
    }
    assert(out@ =~= add_prefix_spec(t@, p@, n@)->Ok_0);
    Ok(out)
}

/// Segments from `i` on, without those declaring prefix `p`.
pub open spec fn without_decl_from(t: Seq<char>, i: int, p: Seq<char>) -> Seq<char>
    decreases t.len() - i,
{
    if i < 0 || i >= t.len() {
        Seq::empty()
    } else {
        proof {
            lemma_seg_end(t, i);
        }
        let seg = t.subrange(i, seg_end(t, i));
        (if decl_name(seg) == Some(p) {
            Seq::empty()
        } else {
            seg
        }) + without_decl_from(t, seg_end(t, i), p)
    }
}

/// Drop every declaration of prefix `p` (`remove_prefix`).
pub open spec fn remove_prefix_spec(t: Seq<char>, p: Seq<char>) -> Outcome {
    if !valid_prefix_name(p) {
        Err((ErrKind::PatchInvalid, bad_prefix_detail(p)))
    } else {
        Ok(without_decl_from(t, 0, p))
    }
}

pub fn remove_prefix_exec(t: &[char], p: &[char]) -> (r: Result<Vec<char>, OwlError>)
    ensures
        outcome(r) == remove_prefix_spec(t@, p@),
{
    if !is_valid_prefix_name(p) {
        let d = debug_text(p);
        return Err(
            err2(ErrKind::PatchInvalid, "prefix must contain only letters, numbers, or underscores: ", d.as_slice()),
        );
    }
    let mut out: Vec<char> = Vec::new();
    let mut i: usize = 0;
    while i < t.len()
        invariant
            i <= t.len(),
            out@ + without_decl_from(t@, i as int, p@) == without_decl_from(t@, 0, p@),
        decreases t.len() - i,
    {
        let e = seg_end_exec(t, i);
        let seg = slice_chars(t, i, e);
        let ghost before = out@;
        let keep = match decl_name_exec(seg.as_slice()) {
            Some(name) => !crate::text::seq_eq(name.as_slice(), p),
            None => true,
        };
        if keep {
            push_all(&mut out, seg.as_slice());
        }
        assert(out@ + without_decl_from(t@, e as int, p@) =~= before + ((if decl_name(seg@)
            == Some(p@) {
            Seq::empty()
        } else {
            seg@
        }) + without_decl_from(t@, e as int, p@)));
        i = e;
    }
    assert(without_decl_from(t@, i as int, p@) == Seq::<char>::empty());
    assert(out@ + Seq::<char>::empty() =~= out@);
    Ok(out)
}

/// Declaration line written by `set_prefix` for an existing declaration with keyword `kw`.
pub open spec fn format_decl(kw: Seq<char>, p: Seq<char>, n: Seq<char>) -> Seq<char> {
    if eq_ignore_case(kw, "PREFIX"@) && !(kw.len() > 0 && kw[0] == '@') {
        "PREFIX "@ + p + ": <"@ + n + ">"@
    } else {
        kw + " "@ + p + ": <"@ + n + "> ."@
    }
}

/// First segment from `i` on that declares `p`: its start and end.
pub open spec fn first_decl_from(t: Seq<char>, i: int, p: Seq<char>) -> Option<(int, int)>
    decreases t.len() - i,
{
    if i < 0 || i >= t.len() {
        None
    } else {
        proof {
            lemma_seg_end(t, i);
        }
        if decl_name(t.subrange(i, seg_end(t, i))) == Some(p) {
            Some((i, seg_end(t, i)))
        } else {
            first_decl_from(t, seg_end(t, i), p)
        }
    }
}

/// Rewrite the first declaration of `p` in place, keeping its keyword style, or add one
/// (`set_prefix`).
pub open spec fn set_prefix_spec(t: Seq<char>, p: Seq<char>, n: Seq<char>) -> Outcome {
    match prefix_error(p, n) {
        Some(e) => Err(e),
        None => match first_decl_from(t, 0, p) {
            Some((s, e)) => {
                let seg = t.subrange(s, e);
                let (a, b) = token_after(seg, 0)->Some_0;
                let rep = format_decl(seg.subrange(a, b), p, n) + (if seg.last() == '\n' {
                    "\n"@
                } else {
                    Seq::empty()
                });
                Ok(t.take(s) + rep + t.skip(e))
            },
            None => add_prefix_spec(t, p, n),
        },
    }
}

pub proof fn lemma_first_decl(t: Seq<char>, i: int, p: Seq<char>)
    requires
        0 <= i,
    ensures
        first_decl_from(t, i, p) matches Some((s, e)) ==> i <= s < e <= t.len() && decl_name(
            t.subrange(s, e),
        ) == Some(p),
    decreases t.len() - i,
{
    if i < t.len() {
        lemma_seg_end(t, i);
        lemma_first_decl(t, seg_end(t, i), p);
    }
}

pub fn set_prefix_exec(t: &[char], p: &[char], n: &[char]) -> (r: Result<Vec<char>, OwlError>)
    ensures
        outcome(r) == set_prefix_spec(t@, p@, n@),
{
    match prefix_error_exec(p, n) {
        Some(e) => {
            return Err(e);
        },
        None => {},
    }
    proof {
        lemma_first_decl(t@, 0, p@);
    }
    let mut i: usize = 0;
    while i < t.len()
        invariant
            i <= t.len(),
            first_decl_from(t@, 0, p@) == first_decl_from(t@, i as int, p@),
            prefix_error(p@, n@) is None,
        decreases t.len() - i,
    {
        let e = seg_end_exec(t, i);
        let seg = slice_chars(t, i, e);
        let found = match decl_name_exec(seg.as_slice()) {
            Some(name) => crate::text::seq_eq(name.as_slice(), p),
            None => false,
        };
        if found {
            let (a, b) = match token_after_exec(seg.as_slice(), 0) {
                Some(x) => x,
                None => {
                    assert(false);
                    (0, 0)
                },
            };
            let kw = slice_chars(seg.as_slice(), a, b);
            let pre = chars_of("PREFIX");
            let mut rep: Vec<char> = Vec::new();
            if eq_ignore_case_exec(kw.as_slice(), pre.as_slice()) && !(kw.len() > 0 && kw[0] == '@') {
                push_str(&mut rep, "PREFIX ");
                push_all(&mut rep, p);
                push_str(&mut rep, ": <");
                push_all(&mut rep, n);
                push_str(&mut rep, ">");
            } else {
                push_all(&mut rep, kw.as_slice());
                push_str(&mut rep, " ");
                push_all(&mut rep, p);
                push_str(&mut rep, ": <");
                push_all(&mut rep, n);
                push_str(&mut rep, "> .");
            }
            let ghost fd = rep@;
            if seg[seg.len() - 1] == '\n' {
                rep.push('\n');
            }
            proof {
                reveal_strlit("\n");
            }
            assert(rep@ =~= fd + (if seg@.last() == '\n' {
                "\n"@
            } else {
                Seq::empty()
            }));
            let mut out = slice_chars(t, 0, i);
            push_all(&mut out, rep.as_slice());
            let tail = slice_chars(t, e, t.len());
            push_all(&mut out, tail.as_slice());
            assert(out@ =~= t@.take(i as int) + rep@ + t@.skip(e as int));
            return Ok(out);
        }
        i = e;
    }
    add_prefix_exec(t, p, n)
}

/// `obj` starts with an ontology type term followed by its end, whitespace, `;`, `.` or `,`.
pub open spec fn names_ontology_type(obj: Seq<char>) -> bool {
    type_term_at(obj, "owl:Ontology"@) || type_term_at(obj, "<http://www.w3.org/2002/07/owl#Ontology>"@)
}

/// `obj` starts with the term `ty` as a whole token.
pub open spec fn type_term_at(obj: Seq<char>, ty: Seq<char>) -> bool {
    starts_with(obj, ty) && (obj.len() == ty.len() || is_ws(obj[ty.len() as int]) || obj[ty.len() as int]
        == ';' || obj[ty.len() as int] == '.' || obj[ty.len() as int] == ',')
}

/// `s` without its leading whitespace.
pub open spec fn ltrim(s: Seq<char>) -> Seq<char> {
    s.skip(skip_ws(s, 0))
}

/// `r` starts with the predicate `pred`, whitespace, then an ontology type term.
pub open spec fn typed_as_ontology(r: Seq<char>, pred: Seq<char>) -> bool {
    starts_with(r, pred) && pred.len() < r.len() && is_ws(r[pred.len() as int]) && names_ontology_type(
        ltrim(r.skip(pred.len() as int)),
    )
}

/// The rest of a subject line declares an ontology (`remainder_declares_owl_ontology`).
pub open spec fn remainder_declares_ontology(rem: Seq<char>) -> bool {
    typed_as_ontology(ltrim(rem), "rdf:type"@) || typed_as_ontology(ltrim(rem), "a"@)
}

/// Length of the subject of a trimmed line that declares an ontology
/// (`ontology_declaration_subject_len`): an `<IRI>` or a word containing `:`.
pub open spec fn ontology_subject_len(tr: Seq<char>) -> Option<int> {
    if tr.len() == 0 || tr[0] == '#' || tr[0] == '@' {
        None
    } else if tr.len() >= 6 && eq_ignore_case(tr.take(6), "prefix"@) {
        None
    } else if tr[0] == '<' {
        let end = next_char(tr, 0, '>');
        if end >= tr.len() {
            None
        } else if remainder_declares_ontology(tr.skip(end + 1)) {
            Some(end + 1)
        } else {
            None
        }
    } else {
        let end = next_ws(tr, 0);
        if end >= tr.len() || next_char(tr, 0, ':') >= end || end == 0 {
            None
        } else if remainder_declares_ontology(tr.skip(end)) {
            Some(end)
        } else {
            None
        }
    }
}

fn ltrim_exec(s: &[char]) -> (r: Vec<char>)
    ensures
        r@ == ltrim(s@),
{
    proof {
        lemma_skip_ws_bounds(s@, 0);
    }
    let k = skip_ws_exec(s, 0);
    slice_chars(s, k, s.len())
}

fn type_term_at_exec(obj: &[char], ty: &[char]) -> (r: bool)
    ensures
        r == type_term_at(obj@, ty@),
{
    if !starts_with_exec(obj, ty) {
        return false;
    }
    let n = ty.len();
    n == obj.len() || ws(obj[n]) || obj[n] == ';' || obj[n] == '.' || obj[n] == ','
}

fn typed_as_ontology_exec(r: &[char], pred: &[char]) -> (b: bool)
    ensures
        b == typed_as_ontology(r@, pred@),
{
    if !starts_with_exec(r, pred) || !(pred.len() < r.len()) || !ws(r[pred.len()]) {
        return false;
    }
    let after = slice_chars(r, pred.len(), r.len());
    let obj = ltrim_exec(after.as_slice());
    let t1 = chars_of("owl:Ontology");
    let t2 = chars_of("<http://www.w3.org/2002/07/owl#Ontology>");
    type_term_at_exec(obj.as_slice(), t1.as_slice()) || type_term_at_exec(obj.as_slice(), t2.as_slice())
}

fn remainder_declares_exec(rem: &[char]) -> (b: bool)
    ensures
        b == remainder_declares_ontology(rem@),
{
    let r = ltrim_exec(rem);
    let p1 = chars_of("rdf:type");
    let p2 = chars_of("a");
    typed_as_ontology_exec(r.as_slice(), p1.as_slice()) || typed_as_ontology_exec(r.as_slice(), p2.as_slice())
}

fn ontology_subject_len_exec(tr: &[char]) -> (r: Option<usize>)
    ensures
        match r {
            Some(n) => ontology_subject_len(tr@) == Some(n as int) && 0 < n <= tr.len(),
            None => ontology_subject_len(tr@) is None,
        },
{
    if tr.len() == 0 || tr[0] == '#' || tr[0] == '@' {
        return None;
    }
    if tr.len() >= 6 {
        let head = slice_chars(tr, 0, 6);
        let pf = chars_of("prefix");
        assert(head@ == tr@.take(6));
        if eq_ignore_case_exec(head.as_slice(), pf.as_slice()) {
            return None;
        }
    }
    if tr[0] == '<' {
        let end = next_char_exec(tr, 0, '>');
        proof {
            lemma_next_char_bounds(tr@, 0, '>');
        }
        if end >= tr.len() {
            return None;
        }
        let rest = slice_chars(tr, end + 1, tr.len());
        if remainder_declares_exec(rest.as_slice()) {
            Some(end + 1)
        } else {
            None
        }
    } else {
        let end = next_ws_exec(tr, 0);
        let colon = next_char_exec(tr, 0, ':');
        proof {
            lemma_next_ws_bounds(tr@, 0);
        }
        if end >= tr.len() || colon >= end || end == 0 {
            return None;
        }
        let rest = slice_chars(tr, end, tr.len());
        if remainder_declares_exec(rest.as_slice()) {
            Some(end)
        } else {
            None
        }
    }
}

/// First ontology declaration from segment `i` on: subject start and length.
pub open spec fn ontology_decl_from(t: Seq<char>, i: int) -> Option<(int, int)>
    decreases t.len() - i,
{
    if i < 0 || i >= t.len() {
        None
    } else {
        proof {
            lemma_seg_end(t, i);
        }
        let seg = t.subrange(i, seg_end(t, i));
        let lead = skip_ws(seg, 0);
        match ontology_subject_len(seg.skip(lead)) {
            Some(n) => Some((i + lead, n)),
            None => ontology_decl_from(t, seg_end(t, i)),
        }
    }
}

/// Text ending with a newline, then an empty line, when non-empty.
pub open spec fn with_blank_line(t: Seq<char>) -> Seq<char> {
    let t1 = if t.len() > 0 && t.last() != '\n' {
        t.push('\n')
    } else {
        t
    };
    if t1.len() > 0 && !(t1.len() >= 2 && t1[t1.len() - 1] == '\n' && t1[t1.len() - 2] == '\n') {
        t1.push('\n')
    } else {
        t1
    }
}

/// Rename the declared ontology in place, or append a declaration (`set_ontology_iri`).
pub open spec fn set_ontology_iri_spec(t: Seq<char>, iri: Seq<char>) -> Outcome {
    if !safe_iri(iri) {
        Err((ErrKind::PatchInvalid, unsafe_iri_detail(iri)))
    } else {
        match ontology_decl_from(t, 0) {
            Some((s, n)) => Ok(t.take(s) + "<"@ + iri + ">"@ + t.skip(s + n)),
            None => Ok(with_blank_line(t) + "<"@ + iri + "> a owl:Ontology .\n"@),
        }
    }
}

pub proof fn lemma_ontology_decl(t: Seq<char>, i: int)
    requires
        0 <= i,
    ensures
        ontology_decl_from(t, i) matches Some((s, n)) ==> i <= s && 0 < n && s + n <= t.len(),
    decreases t.len() - i,
{
    if i < t.len() {
        lemma_seg_end(t, i);
        let e = seg_end(t, i);
        let seg = t.subrange(i, e);
        lemma_skip_ws_bounds(seg, 0);
        lemma_ontology_decl(t, e);
        let lead = skip_ws(seg, 0);
        let tr = seg.skip(lead);
        if let Some(n) = ontology_subject_len(tr) {
            lemma_next_char_bounds(tr, 0, '>');
            lemma_next_ws_bounds(tr, 0);
        }
    }
}

/// Push a newline when the text is non-empty and does not end with one, then another when it
/// does not end with an empty line.
fn push_blank_line(out: &mut Vec<char>)
    ensures
        final(out)@ == with_blank_line(old(out)@),
{
    if out.len() > 0 && out[out.len() - 1] != '\n' {
        out.push('\n');
    }
    let n = out.len();
    if n > 0 && !(n >= 2 && out[n - 1] == '\n' && out[n - 2] == '\n') {
        out.push('\n');
    }
}

pub fn set_ontology_iri_exec(t: &[char], iri: &[char]) -> (r: Result<Vec<char>, OwlError>)
    ensures
        outcome(r) == set_ontology_iri_spec(t@, iri@),
{
    if !safe_iri_chars(iri) {
        let d = debug_text(iri);
        return Err(
            err2(ErrKind::PatchInvalid, "IRI contains characters that cannot be safely written to Turtle: ", d.as_slice()),
        );
    }
    proof {
        lemma_ontology_decl(t@, 0);
    }
    let mut i: usize = 0;
    while i < t.len()
        invariant
            i <= t.len(),
            ontology_decl_from(t@, 0) == ontology_decl_from(t@, i as int),
            safe_iri(iri@),
        decreases t.len() - i,
    {
        let e = seg_end_exec(t, i);
        let seg = slice_chars(t, i, e);
        let lead = skip_ws_exec(seg.as_slice(), 0);
        proof {
            lemma_skip_ws_bounds(seg@, 0);
        }
        let tr = slice_chars(seg.as_slice(), lead, seg.len());
        assert(tr@ == seg@.skip(lead as int));
        match ontology_subject_len_exec(tr.as_slice()) {
            Some(n) => {
                let s = i + lead;
                let mut out = slice_chars(t, 0, s);
                out.push('<');
                push_all(&mut out, iri);
                out.push('>');
                let tail = slice_chars(t, s + n, t.len());
                push_all(&mut out, tail.as_slice());
                proof {
                    reveal_strlit("<");
                    reveal_strlit(">");
                }
                assert(out@ =~= t@.take(s as int) + "<"@ + iri@ + ">"@ + t@.skip(s + n));
                return Ok(out);
            },
            None => {},
        }
        i = e;
    }
    let mut out = slice_chars(t, 0, t.len());
    assert(out@ =~= t@);
    push_blank_line(&mut out);
    out.push('<');
    push_all(&mut out, iri);
    push_str(&mut out, "> a owl:Ontology .\n");
    proof {
        reveal_strlit("<");
    }
    assert(out@ =~= with_blank_line(t@) + "<"@ + iri@ + "> a owl:Ontology .\n"@);
    Ok(out)
}

} // verus!
