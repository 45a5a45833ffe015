//! Parser for data ranges written in Manchester style: datatypes with facet restrictions,
//! literal enumerations, and `and` / `or` / `not` combinations.
use vstd::prelude::*;
use crate::mexpr::{
    facets_v, lemma_ranges_push, ranges_v, resolve_term, resolve_term_iri, texts_of, DataRange,
    Facet, RangeV,
};
use crate::namespaces::Namespaces;
use crate::text::{
    chars_of, eq_ignore_case, eq_ignore_case_exec, is_ws, lemma_next_char_bounds,
    lemma_skip_ws_bounds, next_char, next_char_exec, push_all, push_str, skip_ws, skip_ws_exec,
    slice_chars, ws,
};
use crate::unicode::{alnum, is_alphanumeric};

verus! {

/// The keyword `kw` (ASCII case ignored) at `k`, not followed by a name character.
pub open spec fn kw_here(t: Seq<char>, k: int, kw: Seq<char>) -> bool {
    0 <= k && k + kw.len() <= t.len() && eq_ignore_case(t.subrange(k, k + kw.len()), kw) && (k
        + kw.len() == t.len() || !(alnum(t[k + kw.len()]) || t[k + kw.len()] == '_'))
}

/// The exact text `sym` at `k`.
pub open spec fn sym_here(t: Seq<char>, k: int, sym: Seq<char>) -> bool {
    0 <= k && k + sym.len() <= t.len() && t.subrange(k, k + sym.len()) == sym
}

fn kw_here_exec(t: &[char], k: usize, kw: &str) -> (r: bool)
    ensures
        r == kw_here(t@, k as int, kw@),
{
    let w = chars_of(kw);
    if k > t.len() || t.len() - k < w.len() {
        return false;
    }
    let part = slice_chars(t, k, k + w.len());
    if !eq_ignore_case_exec(part.as_slice(), w.as_slice()) {
        return false;
    }
    let e = k + w.len();
    if e == t.len() {
        return true;
    }
    !(is_alphanumeric(t[e]) || t[e] == '_')
}

fn sym_here_exec(t: &[char], k: usize, sym: &str) -> (r: bool)
    ensures
        r == sym_here(t@, k as int, sym@),
{
    let w = chars_of(sym);
    if k > t.len() || t.len() - k < w.len() {
        return false;
    }
    let part = slice_chars(t, k, k + w.len());
    crate::text::seq_eq(part.as_slice(), w.as_slice())
}

/// Result of parsing a data range from a position.
pub type DrParsed = Result<(RangeV, int), Seq<char>>;

/// `left or right`, extending a union on the left.
pub open spec fn union_with(left: RangeV, right: RangeV) -> RangeV {
    match left {
        RangeV::DataUnionOf(v) => RangeV::DataUnionOf(v.push(right)),
        _ => RangeV::DataUnionOf(seq![left, right]),
    }
}

/// `left and right`, extending an intersection on the left.
pub open spec fn intersect_with(left: RangeV, right: RangeV) -> RangeV {
    match left {
        RangeV::DataIntersectionOf(v) => RangeV::DataIntersectionOf(v.push(right)),
        _ => RangeV::DataIntersectionOf(seq![left, right]),
    }
}

/// Body of a quoted literal from `j` (after the opening quote) to the closing quote or the
/// end of the text: the unescaped characters and the index after it.
pub open spec fn scan_quoted(t: Seq<char>, j: int) -> (Seq<char>, int)
    decreases t.len() - j,
{
    if j < 0 || j >= t.len() {
        (Seq::empty(), j)
    } else if t[j] == '"' {
        (Seq::empty(), j + 1)
    } else if t[j] == '\\' {
        if j + 1 >= t.len() {
            (Seq::empty(), j + 1)
        } else {
            let (s, k) = scan_quoted(t, j + 2);
            (seq![t[j + 1]] + s, k)
        }
    } else {
        let (s, k) = scan_quoted(t, j + 1);
        (seq![t[j]] + s, k)
    }
}

pub proof fn lemma_scan_quoted(t: Seq<char>, j: int)
    requires
        0 <= j <= t.len(),
    ensures
        j <= scan_quoted(t, j).1 <= t.len(),
        j < t.len() ==> j < scan_quoted(t, j).1,
    decreases t.len() - j,
{
    if j < t.len() && t[j] != '"' {
        if t[j] == '\\' {
            if j + 1 < t.len() {
                lemma_scan_quoted(t, j + 2);
            }
        } else {
            lemma_scan_quoted(t, j + 1);
        }
    }
}

/// Characters that end an unquoted literal.
pub open spec fn ends_literal(c: char) -> bool {
    is_ws(c) || c == ',' || c == '}' || c == ')' || c == ']'
}

pub open spec fn literal_end(t: Seq<char>, j: int) -> int
    decreases t.len() - j,
{
    if j < 0 || j >= t.len() {
        t.len() as int
    } else if ends_literal(t[j]) {
        j
    } else {
        literal_end(t, j + 1)
    }
}

pub proof fn lemma_literal_end(t: Seq<char>, j: int)
    requires
        0 <= j <= t.len(),
    ensures
        j <= literal_end(t, j) <= t.len(),
    decreases t.len() - j,
{
    if j < t.len() && !ends_literal(t[j]) {
        lemma_literal_end(t, j + 1);
    }
}

/// A literal value at `i` (after blanks): quoted with escapes, or the unquoted run up to a
/// blank or delimiter.
pub open spec fn dr_literal(t: Seq<char>, i: int) -> Result<(Seq<char>, int), Seq<char>> {
    let j = skip_ws(t, i);
    if j < t.len() && t[j] == '"' {
        Ok(scan_quoted(t, j + 1))
    } else {
        let e = literal_end(t, j);
        if e <= j {
            Err("empty literal in data oneOf"@)
        } else {
            Ok((t.subrange(j, e), e))
        }
    }
}

/// Characters of a datatype name.
pub open spec fn is_name_char(c: char) -> bool {
    alnum(c) || c == ':' || c == '_' || c == '-' || c == '.'
}

pub open spec fn name_end(t: Seq<char>, j: int) -> int
    decreases t.len() - j,
{
    if j < 0 || j >= t.len() {
        t.len() as int
    } else if is_name_char(t[j]) {
        name_end(t, j + 1)
    } else {
        j
    }
}

pub proof fn lemma_name_end(t: Seq<char>, j: int)
    requires
        0 <= j <= t.len(),
    ensures
        j <= name_end(t, j) <= t.len(),
    decreases t.len() - j,
{
    if j < t.len() && is_name_char(t[j]) {
        lemma_name_end(t, j + 1);
    }
}

/// A datatype name at `i` (after blanks): `<iri>` or a run of name characters.
pub open spec fn dr_name(t: Seq<char>, i: int) -> Result<(Seq<char>, int), Seq<char>> {
    let k = skip_ws(t, i);
    if k < t.len() && t[k] == '<' {
        let e = next_char(t, k + 1, '>');
        if e < t.len() {
            Ok(("<"@ + t.subrange(k + 1, e) + ">"@, e + 1))
        } else {
            Err("unclosed IRI in data range"@)
        }
    } else {
        let e = name_end(t, k);
        if e <= k {
            Err("expected datatype name"@)
        } else {
            Ok((t.subrange(k, e), e))
        }
    }
}

/// The facet written at `j`, and where its value starts.
pub open spec fn facet_at(t: Seq<char>, j: int) -> Option<(Facet, int)> {
    if sym_here(t, j, ">="@) {
        Some((Facet::MinInclusive, j + 2))
    } else if sym_here(t, j, "<="@) {
        Some((Facet::MaxInclusive, j + 2))
    } else if sym_here(t, j, ">"@) {
        Some((Facet::MinExclusive, j + 1))
    } else if sym_here(t, j, "<"@) {
        Some((Facet::MaxExclusive, j + 1))
    } else if kw_here(t, j, "length"@) {
        Some((Facet::Length, j + 6))
    } else if kw_here(t, j, "minLength"@) {
        Some((Facet::MinLength, j + 9))
    } else if kw_here(t, j, "maxLength"@) {
        Some((Facet::MaxLength, j + 9))
    } else if kw_here(t, j, "pattern"@) {
        Some((Facet::Pattern, j + 7))
    } else if kw_here(t, j, "totalDigits"@) {
        Some((Facet::TotalDigits, j + 11))
    } else if kw_here(t, j, "fractionDigits"@) {
        Some((Facet::FractionDigits, j + 14))
    } else {
        None
    }
}

/// One `[facet value]` starting at the `[` at `k`.
pub open spec fn dr_facet(t: Seq<char>, k: int) -> Result<((Facet, Seq<char>), int), Seq<char>> {
    let j = skip_ws(t, k + 1);
    match facet_at(t, j) {
        None => Err("unknown facet in datatype restriction"@),
        Some((f, v)) => match dr_literal(t, v) {
            Err(e) => Err(e),
            Ok((value, m)) => {
                let e = skip_ws(t, m);
                if e < t.len() && t[e] == ']' {
                    Ok(((f, value), e + 1))
                } else {
                    Err("expected ']' after facet"@)
                }
            },
        },
    }
}

/// The `[...]` facets following a datatype name, from `j` on.
pub open spec fn dr_facets(t: Seq<char>, j: int, acc: Seq<(Facet, Seq<char>)>) -> Result<
    (Seq<(Facet, Seq<char>)>, int),
    Seq<char>,
>
    decreases t.len() - j,
{
    let k = skip_ws(t, j);
    if j < 0 || j > t.len() {
        Err(Seq::empty())
    } else if k < t.len() && t[k] == '[' {
        match dr_facet(t, k) {
            Err(e) => Err(e),
            Ok((f, m)) => if j < m <= t.len() {
                dr_facets(t, m, acc.push(f))
            } else {
                Err(Seq::empty())
            },
        }
    } else {
        Ok((acc, k))
    }
}

/// The literals of `{ l, l, ... }`, continuing at `j`.
pub open spec fn one_of_items(t: Seq<char>, j: int, lits: Seq<Seq<char>>) -> DrParsed
    decreases t.len() - j,
{
    let k = skip_ws(t, j);
    if j < 0 || j > t.len() {
        Err(Seq::empty())
    } else if k < t.len() && t[k] == '}' {
        Ok((RangeV::DataOneOf(lits), k + 1))
    } else {
        match dr_literal(t, k) {
            Err(e) => Err(e),
            Ok((l, m)) => {
                let e = skip_ws(t, m);
                if e < t.len() && t[e] == ',' {
                    if j < e + 1 <= t.len() {
                        one_of_items(t, e + 1, lits.push(l))
                    } else {
                        Err(Seq::empty())
                    }
                } else if e < t.len() && t[e] == '}' {
                    Ok((RangeV::DataOneOf(lits.push(l)), e + 1))
                } else {
                    Err("expected ',' or '}' in data oneOf"@)
                }
            },
        }
    }
}

/// `or`-separated data ranges from `i`.
pub open spec fn dr_or(t: Seq<char>, ns: Seq<(Seq<char>, Seq<char>)>, i: int) -> DrParsed
    decreases t.len() - i, 6int,
{
    if i < 0 || i > t.len() {
        Err(Seq::empty())
    } else {
        match dr_and(t, ns, i) {
            Err(e) => Err(e),
            Ok((a, j)) => if i <= j <= t.len() {
                dr_or_rest(t, ns, j, a)
            } else {
                Err(Seq::empty())
            },
        }
    }
}

pub open spec fn dr_or_rest(
    t: Seq<char>,
    ns: Seq<(Seq<char>, Seq<char>)>,
    j: int,
    left: RangeV,
) -> DrParsed
    decreases t.len() - j, 5int,
{
    let k = skip_ws(t, j);
    if j < 0 || j > t.len() {
        Err(Seq::empty())
    } else if kw_here(t, k, "or"@) {
        proof {
            lemma_skip_ws_bounds(t, j);
            reveal_strlit("or");
        }
        match dr_and(t, ns, k + 2) {
            Err(e) => Err(e),
            Ok((b, m)) => if j < m <= t.len() {
                dr_or_rest(t, ns, m, union_with(left, b))
            } else {
                Err(Seq::empty())
            },
        }
    } else {
        Ok((left, k))
    }
}

/// `and`-separated data ranges from `i`.
pub open spec fn dr_and(t: Seq<char>, ns: Seq<(Seq<char>, Seq<char>)>, i: int) -> DrParsed
    decreases t.len() - i, 4int,
{
    if i < 0 || i > t.len() {
        Err(Seq::empty())
    } else {
        match dr_unary(t, ns, i) {
            Err(e) => Err(e),
            Ok((a, j)) => if i <= j <= t.len() {
                dr_and_rest(t, ns, j, a)
            } else {
                Err(Seq::empty())
            },
        }
    }
}

pub open spec fn dr_and_rest(
    t: Seq<char>,
    ns: Seq<(Seq<char>, Seq<char>)>,
    j: int,
    left: RangeV,
) -> DrParsed
    decreases t.len() - j, 3int,
{
    let k = skip_ws(t, j);
    if j < 0 || j > t.len() {
        Err(Seq::empty())
    } else if kw_here(t, k, "and"@) {
        proof {
            lemma_skip_ws_bounds(t, j);
            reveal_strlit("and");
        }
        match dr_unary(t, ns, k + 3) {
            Err(e) => Err(e),
            Ok((b, m)) => if j < m <= t.len() {
                dr_and_rest(t, ns, m, intersect_with(left, b))
            } else {
                Err(Seq::empty())
            },
        }
    } else {
        Ok((left, k))
    }
}

/// `not` in front of a data range, or a primary data range, from `i`.
pub open spec fn dr_unary(t: Seq<char>, ns: Seq<(Seq<char>, Seq<char>)>, i: int) -> DrParsed
    decreases t.len() - i, 2int,
{
    let k = skip_ws(t, i);
    if i < 0 || i > t.len() {
        Err(Seq::empty())
    } else if kw_here(t, k, "not"@) {
        proof {
            lemma_skip_ws_bounds(t, i);
            reveal_strlit("not");
        }
        match dr_unary(t, ns, k + 3) {
            Err(e) => Err(e),
            Ok((a, m)) => Ok((RangeV::DataComplementOf(Box::new(a)), m)),
        }
    } else {
        proof {
            lemma_skip_ws_bounds(t, i);
        }
        dr_primary(t, ns, k)
    }
}

/// A literal enumeration, a parenthesised data range, or a datatype with its facets.
pub open spec fn dr_primary(t: Seq<char>, ns: Seq<(Seq<char>, Seq<char>)>, i: int) -> DrParsed
    decreases t.len() - i, 1int,
{
    let k = skip_ws(t, i);
    if i < 0 || i > t.len() {
        Err(Seq::empty())
    } else if k < t.len() && t[k] == '{' {
        one_of_items(t, k + 1, Seq::empty())
    } else if k < t.len() && t[k] == '(' {
        proof {
            lemma_skip_ws_bounds(t, i);
        }
        match dr_or(t, ns, k + 1) {
            Err(e) => Err(e),
            Ok((a, m)) => {
                let e = skip_ws(t, m);
                if e < t.len() && t[e] == ')' {
                    Ok((a, e + 1))
                } else {
                    Err("expected ')' in data range"@)
                }
            },
        }
    } else {
        match dr_name(t, k) {
            Err(e) => Err(e),
            Ok((name, m)) => match resolve_term(name, ns) {
                Err(e) => Err(e),
                Ok(iri) => match dr_facets(t, m, Seq::empty()) {
                    Err(e) => Err(e),
                    Ok((fs, m2)) => Ok(
                        (
                            if fs.len() == 0 {
                                RangeV::Datatype(iri)
                            } else {
                                RangeV::DatatypeRestriction(iri, fs)
                            },
                            m2,
                        ),
                    ),
                },
            },
        }
    }
}

/// The data range written as the whole of `t` (already trimmed), or the error detail.
pub open spec fn data_range_of(t: Seq<char>, ns: Seq<(Seq<char>, Seq<char>)>) -> Result<
    RangeV,
    Seq<char>,
> {
    if t.len() == 0 {
        Err("empty data range"@)
    } else {
        match dr_or(t, ns, 0) {
            Err(e) => Err(e),
            Ok((r, j)) => {
                let k = skip_ws(t, j);
                if k < t.len() {
                    Err("unexpected trailing input in data range: '"@ + t.subrange(k, t.len() as int)
                        + "'"@)
                } else {
                    Ok(r)
                }
            },
        }
    }
}

/// A parse result as mathematical values.
pub open spec fn drp(r: Result<(DataRange, usize), Vec<char>>) -> DrParsed {
    match r {
        Ok((a, q)) => Ok((a@, q as int)),
        Err(m) => Err(m@),
    }
}

/// A successful parse moved forward from `i` and stayed within `n`.
pub open spec fn forward(r: Result<(DataRange, usize), Vec<char>>, i: int, n: int) -> bool {
    r matches Ok((_a, q)) ==> i < q <= n
}

fn skip(t: &[char], i: usize) -> (r: usize)
    requires
        i <= t.len(),
    ensures
        r as int == skip_ws(t@, i as int),
        i <= r <= t.len(),
{
    proof {
        lemma_skip_ws_bounds(t@, i as int);
    }
    skip_ws_exec(t, i)
}

fn scan_quoted_exec(t: &[char], j: usize) -> (r: (Vec<char>, usize))
    requires
        j <= t.len(),
    ensures
        (r.0@, r.1 as int) == scan_quoted(t@, j as int),
{
    let mut lit: Vec<char> = Vec::new();
    let mut k = j;
    while k < t.len()
        invariant
            j <= k <= t.len() + 1,
            scan_quoted(t@, j as int) == (lit@ + scan_quoted(t@, k as int).0, scan_quoted(
                t@,
                k as int,
            ).1),
        decreases t.len() + 1 - k,
    {
        let c = t[k];
        if c == '"' {
            assert(lit@ + Seq::<char>::empty() =~= lit@);
            return (lit, k + 1);
        }
        if c == '\\' {
            if k + 1 >= t.len() {
                assert(lit@ + Seq::<char>::empty() =~= lit@);
                return (lit, k + 1);
            }
            let ghost rest = scan_quoted(t@, k + 2).0;
            assert(lit@ + (seq![t@[k + 1]] + rest) =~= lit@.push(t@[k + 1]) + rest);
            lit.push(t[k + 1]);
            k = k + 2;
        } else {
            let ghost rest = scan_quoted(t@, k + 1).0;
            assert(lit@ + (seq![c] + rest) =~= lit@.push(c) + rest);
            lit.push(c);
            k = k + 1;
        }
    }
    assert(lit@ + Seq::<char>::empty() =~= lit@);
    (lit, k)
}

fn literal_exec(t: &[char], i: usize) -> (r: Result<(Vec<char>, usize), Vec<char>>)
    requires
        i <= t.len(),
    ensures
        match r {
            Ok((l, m)) => dr_literal(t@, i as int) == Ok::<(Seq<char>, int), Seq<char>>(
                (l@, m as int),
            ) && i < m <= t.len(),
            Err(e) => dr_literal(t@, i as int) == Err::<(Seq<char>, int), Seq<char>>(e@),
        },
{
    let j = skip(t, i);
    if j < t.len() && t[j] == '"' {
        proof {
            lemma_scan_quoted(t@, j + 1);
        }
        return Ok(scan_quoted_exec(t, j + 1));
    }
    proof {
        lemma_literal_end(t@, j as int);
    }
    let mut e = j;
    while e < t.len() && !(ws(t[e]) || t[e] == ',' || t[e] == '}' || t[e] == ')' || t[e] == ']')
        invariant
            j <= e <= t.len(),
            literal_end(t@, j as int) == literal_end(t@, e as int),
        decreases t.len() - e,
    {
        e += 1;
    }
    if e <= j {
        return Err(chars_of("empty literal in data oneOf"));
    }
    Ok((slice_chars(t, j, e), e))
}

fn name_exec(t: &[char], i: usize) -> (r: Result<(Vec<char>, usize), Vec<char>>)
    requires
        i <= t.len(),
    ensures
        match r {
            Ok((l, m)) => dr_name(t@, i as int) == Ok::<(Seq<char>, int), Seq<char>>(
                (l@, m as int),
            ) && i < m <= t.len(),
            Err(e) => dr_name(t@, i as int) == Err::<(Seq<char>, int), Seq<char>>(e@),
        },
{
    let k = skip(t, i);
    if k < t.len() && t[k] == '<' {
        let e = next_char_exec(t, k + 1, '>');
        proof {
            lemma_next_char_bounds(t@, k + 1, '>');
        }
        if e < t.len() {
            let mut out = chars_of("<");
            push_all(&mut out, slice_chars(t, k + 1, e).as_slice());
            push_str(&mut out, ">");
            return Ok((out, e + 1));
        }
        return Err(chars_of("unclosed IRI in data range"));
    }
    proof {
        lemma_name_end(t@, k as int);
    }
    let mut e = k;
    while e < t.len() && (is_alphanumeric(t[e]) || t[e] == ':' || t[e] == '_' || t[e] == '-'
        || t[e] == '.')
        invariant
            k <= e <= t.len(),
            name_end(t@, k as int) == name_end(t@, e as int),
        decreases t.len() - e,
    {
        e += 1;
    }
    if e <= k {
        return Err(chars_of("expected datatype name"));
    }
    Ok((slice_chars(t, k, e), e))
}

fn facet_at_exec(t: &[char], j: usize) -> (r: Option<(Facet, usize)>)
    requires
        j <= t.len(),
    ensures
        match r {
            Some((f, v)) => facet_at(t@, j as int) == Some((f, v as int)) && j < v <= t.len(),
            None => facet_at(t@, j as int) is None,
        },
{
    proof {
        reveal_strlit(">=");
        reveal_strlit("<=");
        reveal_strlit(">");
        reveal_strlit("<");
        reveal_strlit("length");
        reveal_strlit("minLength");
        reveal_strlit("maxLength");
        reveal_strlit("pattern");
        reveal_strlit("totalDigits");
        reveal_strlit("fractionDigits");
    }
    if sym_here_exec(t, j, ">=") {
        Some((Facet::MinInclusive, j + 2))
    } else if sym_here_exec(t, j, "<=") {
        Some((Facet::MaxInclusive, j + 2))
    } else if sym_here_exec(t, j, ">") {
        Some((Facet::MinExclusive, j + 1))
    } else if sym_here_exec(t, j, "<") {
        Some((Facet::MaxExclusive, j + 1))
    } else if kw_here_exec(t, j, "length") {
        Some((Facet::Length, j + 6))
    } else if kw_here_exec(t, j, "minLength") {
        Some((Facet::MinLength, j + 9))
    } else if kw_here_exec(t, j, "maxLength") {
        Some((Facet::MaxLength, j + 9))
    } else if kw_here_exec(t, j, "pattern") {
        Some((Facet::Pattern, j + 7))
    } else if kw_here_exec(t, j, "totalDigits") {
        Some((Facet::TotalDigits, j + 11))
    } else if kw_here_exec(t, j, "fractionDigits") {
        Some((Facet::FractionDigits, j + 14))
    } else {
        None
    }
}

fn facet_exec(t: &[char], k: usize) -> (r: Result<((Facet, Vec<char>), usize), Vec<char>>)
    requires
        k < t.len(),
    ensures
        match r {
            Ok((fv, m)) => dr_facet(t@, k as int) == Ok::<((Facet, Seq<char>), int), Seq<char>>(
                ((fv.0, fv.1@), m as int),
            ) && k < m <= t.len(),
            Err(e) => dr_facet(t@, k as int) == Err::<((Facet, Seq<char>), int), Seq<char>>(e@),
        },
{
    let j = skip(t, k + 1);
    let (f, v) = match facet_at_exec(t, j) {
        None => {
            return Err(chars_of("unknown facet in datatype restriction"));
        },
        Some(x) => x,
    };
    let (value, m) = match literal_exec(t, v) {
        Err(e) => {
            return Err(e);
        },
        Ok(x) => x,
    };
    let e = skip(t, m);
    if e < t.len() && t[e] == ']' {
        Ok(((f, value), e + 1))
    } else {
        Err(chars_of("expected ']' after facet"))
    }
}

fn facets_exec(t: &[char], j0: usize) -> (r: Result<(Vec<(Facet, Vec<char>)>, usize), Vec<char>>)
    requires
        j0 <= t.len(),
    ensures
        match r {
            Ok((fs, m)) => dr_facets(t@, j0 as int, Seq::empty()) == Ok::<
                (Seq<(Facet, Seq<char>)>, int),
                Seq<char>,
            >((facets_v(fs@), m as int)) && j0 <= m <= t.len(),
            Err(e) => dr_facets(t@, j0 as int, Seq::empty()) == Err::<
                (Seq<(Facet, Seq<char>)>, int),
                Seq<char>,
            >(e@),
        },
{
    let mut fs: Vec<(Facet, Vec<char>)> = Vec::new();
    let mut j = j0;
    assert(facets_v(fs@) =~= Seq::<(Facet, Seq<char>)>::empty());
    loop
        invariant
            j0 <= j <= t.len(),
            dr_facets(t@, j0 as int, Seq::empty()) == dr_facets(t@, j as int, facets_v(fs@)),
        decreases t.len() - j,
    {
        let k = skip(t, j);
        if k < t.len() && t[k] == '[' {
            let (f, m) = match facet_exec(t, k) {
                Err(e) => {
                    return Err(e);
                },
                Ok(x) => x,
            };
            let ghost before = fs@;
            fs.push(f);
            assert(facets_v(fs@) =~= facets_v(before).push((f.0, f.1@)));
            j = m;
        } else {
            return Ok((fs, k));
        }
    }
}

fn one_of_exec(t: &[char], k: usize) -> (r: Result<(DataRange, usize), Vec<char>>)
    requires
        k < t.len(),
        t@[k as int] == '{',
    ensures
        drp(r) == one_of_items(t@, k + 1, Seq::empty()),
        forward(r, k as int, t.len() as int),
{
    let mut lits: Vec<Vec<char>> = Vec::new();
    let mut j = k + 1;
    assert(texts_of(lits@) =~= Seq::<Seq<char>>::empty());
    loop
        invariant
            k < j <= t.len(),
            one_of_items(t@, k + 1, Seq::empty()) == one_of_items(t@, j as int, texts_of(lits@)),
        decreases t.len() - j,
    {
        let k1 = skip(t, j);
        if k1 < t.len() && t[k1] == '}' {
            return Ok((DataRange::DataOneOf(lits), k1 + 1));
        }
        let (l, m) = match literal_exec(t, k1) {
            Err(e) => {
                return Err(e);
            },
            Ok(x) => x,
        };
        let e = skip(t, m);
        let ghost before = lits@;
        lits.push(l);
        assert(texts_of(lits@) =~= texts_of(before).push(l@));
        if e < t.len() && t[e] == ',' {
            j = e + 1;
        } else if e < t.len() && t[e] == '}' {
            return Ok((DataRange::DataOneOf(lits), e + 1));
        } else {
            return Err(chars_of("expected ',' or '}' in data oneOf"));
        }
    }
}

fn pair_ranges(a: DataRange, b: DataRange) -> (r: Vec<DataRange>)
    ensures
        ranges_v(r@) == seq![a@, b@],
{
    let mut v: Vec<DataRange> = Vec::new();
    proof {
        lemma_ranges_push(Seq::empty(), a);
    }
    v.push(a);
    proof {
        lemma_ranges_push(v@, b);
        assert(Seq::<DataRange>::empty().push(a) =~= v@);
        assert(ranges_v(Seq::<DataRange>::empty()) =~= Seq::<RangeV>::empty());
    }
    v.push(b);
    assert(seq![a@, b@] =~= Seq::<RangeV>::empty().push(a@).push(b@));
    v
}

fn union_with_exec(left: DataRange, right: DataRange) -> (r: DataRange)
    ensures
        r@ == union_with(left@, right@),
{
    match left {
        DataRange::DataUnionOf(mut v) => {
            proof {
                lemma_ranges_push(v@, right);
            }
            v.push(right);
            DataRange::DataUnionOf(v)
        },
        other => DataRange::DataUnionOf(pair_ranges(other, right)),
    }
}

fn intersect_with_exec(left: DataRange, right: DataRange) -> (r: DataRange)
    ensures
        r@ == intersect_with(left@, right@),
{
    match left {
        DataRange::DataIntersectionOf(mut v) => {
            proof {
                lemma_ranges_push(v@, right);
            }
            v.push(right);
            DataRange::DataIntersectionOf(v)
        },
        other => DataRange::DataIntersectionOf(pair_ranges(other, right)),
    }
}

fn or_exec(t: &[char], ns: &Namespaces, i: usize) -> (r: Result<(DataRange, usize), Vec<char>>)
    requires
        i <= t.len(),
    ensures
        drp(r) == dr_or(t@, ns@, i as int),
        forward(r, i as int, t.len() as int),
    decreases t.len() - i, 6int,
{
    let (a, j0) = match and_exec(t, ns, i) {
        Err(e) => {
            return Err(e);
        },
        Ok(x) => x,
    };
    let mut left = a;
    let mut j = j0;
    loop
        invariant
            i < j <= t.len(),
            dr_or(t@, ns@, i as int) == dr_or_rest(t@, ns@, j as int, left@),
        decreases t.len() - j,
    {
        let k = skip(t, j);
        if kw_here_exec(t, k, "or") {
            proof {
                reveal_strlit("or");
            }
            let (b, m) = match and_exec(t, ns, k + 2) {
                Err(e) => {
                    return Err(e);
                },
                Ok(x) => x,
            };
            left = union_with_exec(left, b);
            j = m;
        } else {
            return Ok((left, k));
        }
    }
}

fn and_exec(t: &[char], ns: &Namespaces, i: usize) -> (r: Result<(DataRange, usize), Vec<char>>)
    requires
        i <= t.len(),
    ensures
        drp(r) == dr_and(t@, ns@, i as int),
        forward(r, i as int, t.len() as int),
    decreases t.len() - i, 4int,
{
    let (a, j0) = match unary_exec(t, ns, i) {
        Err(e) => {
            return Err(e);
        },
        Ok(x) => x,
    };
    let mut left = a;
    let mut j = j0;
    loop
        invariant
            i < j <= t.len(),
            dr_and(t@, ns@, i as int) == dr_and_rest(t@, ns@, j as int, left@),
        decreases t.len() - j,
    {
        let k = skip(t, j);
        if kw_here_exec(t, k, "and") {
            proof {
                reveal_strlit("and");
            }
            let (b, m) = match unary_exec(t, ns, k + 3) {
                Err(e) => {
                    return Err(e);
                },
                Ok(x) => x,
            };
            left = intersect_with_exec(left, b);
            j = m;
        } else {
            return Ok((left, k));
        }
    }
}

fn unary_exec(t: &[char], ns: &Namespaces, i: usize) -> (r: Result<(DataRange, usize), Vec<char>>)
    requires
        i <= t.len(),
    ensures
        drp(r) == dr_unary(t@, ns@, i as int),
        forward(r, i as int, t.len() as int),
    decreases t.len() - i, 2int,
{
    let k = skip(t, i);
    if kw_here_exec(t, k, "not") {
        proof {
            reveal_strlit("not");
        }
        match unary_exec(t, ns, k + 3) {
            Err(e) => Err(e),
            Ok((a, m)) => Ok((DataRange::DataComplementOf(Box::new(a)), m)),
        }
    } else {
        primary_exec(t, ns, k)
    }
}

fn primary_exec(t: &[char], ns: &Namespaces, i: usize) -> (r: Result<(DataRange, usize), Vec<char>>)
    requires
        i <= t.len(),
    ensures
        drp(r) == dr_primary(t@, ns@, i as int),
        forward(r, i as int, t.len() as int),
    decreases t.len() - i, 1int,
{
    let k = skip(t, i);
    if k < t.len() && t[k] == '{' {
        return one_of_exec(t, k);
    }
    if k < t.len() && t[k] == '(' {
        let (a, m) = match or_exec(t, ns, k + 1) {
            Err(e) => {
                return Err(e);
            },
            Ok(x) => x,
        };
        let e = skip(t, m);
        if e < t.len() && t[e] == ')' {
            return Ok((a, e + 1));
        }
        return Err(chars_of("expected ')' in data range"));
    }
    let (name, m) = match name_exec(t, k) {
        Err(e) => {
            return Err(e);
        },
        Ok(x) => x,
    };
    let iri = match resolve_term_iri(name.as_slice(), ns) {
        Err(e) => {
            return Err(e);
        },
        Ok(x) => x,
    };
    let (fs, m2) = match facets_exec(t, m) {
        Err(e) => {
            return Err(e);
        },
        Ok(x) => x,
    };
    if fs.len() == 0 {
        Ok((DataRange::Datatype(iri), m2))
    } else {
        Ok((DataRange::DatatypeRestriction(iri, fs), m2))
    }
}

/// The data range written as the whole of `t` (already trimmed), or the error detail.
pub fn data_range_chars(t: &[char], ns: &Namespaces) -> (r: Result<DataRange, Vec<char>>)
    ensures
        match r {
            Ok(d) => data_range_of(t@, ns@) == Ok::<RangeV, Seq<char>>(d@),
            Err(e) => data_range_of(t@, ns@) == Err::<RangeV, Seq<char>>(e@),
        },
{
    if t.len() == 0 {
        return Err(chars_of("empty data range"));
    }
    let (r, j) = match or_exec(t, ns, 0) {
        Err(e) => {
            return Err(e);
        },
        Ok(x) => x,
    };
    let k = skip(t, j);
    if k < t.len() {
        let mut m = chars_of("unexpected trailing input in data range: '");
        push_all(&mut m, slice_chars(t, k, t.len()).as_slice());
        push_str(&mut m, "'");
        return Err(m);
    }
    Ok(r)
}

} // verus!
