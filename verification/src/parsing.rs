//! Helpers of ontology parsing: entity kinds from `rdf:type` IRIs, OBO identifiers and
//! annotation CURIEs as IRIs, and the prefix declarations written in a Turtle text.
use vstd::prelude::*;
use crate::namespaces::{assoc_insert, lookup, Namespaces};
use crate::span::{strip_trailing, strip_trailing_exec};
use crate::text::{
    chars_of, contains, contains_exec, lemma_next_char_bounds, ends_with, ends_with_exec,
    lemma_line_bounds, line_at, line_bounds, next_char, next_char_exec, next_line_start,
    push_all, replace_all, replace_str, seq_eq, slice_chars, starts_with, starts_with_exec,
    string_from, trim, trim_exec,
};
use crate::links::{byte_slice, find_captures, regex_captures, Capture};
use crate::text::char_at_byte_exec;
use crate::validators::EntityKind;
use crate::span::SourceLocation;
use crate::mexpr::texts_of;
use crate::text::{eq_ignore_case, eq_ignore_case_exec, is_ascii_digit, token_after, token_after_exec};
use crate::mlex::digits_value;

verus! {

/// The kind of entity an `rdf:type` IRI declares.
pub open spec fn kind_of_type(t: Seq<char>) -> EntityKind {
    if t == "http://www.w3.org/2002/07/owl#Class"@ || t == "http://www.w3.org/2000/01/rdf-schema#Class"@ {
        EntityKind::Class
    } else if t == "http://www.w3.org/2002/07/owl#ObjectProperty"@ {
        EntityKind::ObjectProperty
    } else if t == "http://www.w3.org/2002/07/owl#DatatypeProperty"@ {
        EntityKind::DataProperty
    } else if t == "http://www.w3.org/2002/07/owl#AnnotationProperty"@ {
        EntityKind::AnnotationProperty
    } else if t == "http://www.w3.org/2002/07/owl#NamedIndividual"@ {
        EntityKind::Individual
    } else if t == "http://www.w3.org/2000/01/rdf-schema#Datatype"@ {
        EntityKind::Datatype
    } else if t == "http://www.w3.org/2002/07/owl#Ontology"@ {
        EntityKind::Ontology
    } else {
        EntityKind::Other
    }
}

fn same_text(a: &[char], lit: &str) -> (r: bool)
    ensures
        r == (a@ == lit@),
{
    let l = chars_of(lit);
    seq_eq(a, l.as_slice())
}

/// `entity_kind_for_type`: the kind of entity declared by `rdf:type <type_iri>`.
pub fn entity_kind_for_type(type_iri: &str) -> (r: EntityKind)
    ensures
        r == kind_of_type(type_iri@),
{
    let t = chars_of(type_iri);
    let t = t.as_slice();
    if same_text(t, "http://www.w3.org/2002/07/owl#Class") || same_text(t, "http://www.w3.org/2000/01/rdf-schema#Class") {
        EntityKind::Class
    } else if same_text(t, "http://www.w3.org/2002/07/owl#ObjectProperty") {
        EntityKind::ObjectProperty
    } else if same_text(t, "http://www.w3.org/2002/07/owl#DatatypeProperty") {
        EntityKind::DataProperty
    } else if same_text(t, "http://www.w3.org/2002/07/owl#AnnotationProperty") {
        EntityKind::AnnotationProperty
    } else if same_text(t, "http://www.w3.org/2002/07/owl#NamedIndividual") {
        EntityKind::Individual
    } else if same_text(t, "http://www.w3.org/2000/01/rdf-schema#Datatype") {
        EntityKind::Datatype
    } else if same_text(t, "http://www.w3.org/2002/07/owl#Ontology") {
        EntityKind::Ontology
    } else {
        EntityKind::Other
    }
}

/// How strongly a declared kind wins over another declaration of the same entity.
pub open spec fn priority(k: EntityKind) -> u8 {
    match k {
        EntityKind::Class | EntityKind::ObjectProperty | EntityKind::DataProperty
        | EntityKind::AnnotationProperty => 5,
        EntityKind::Individual | EntityKind::Datatype => 4,
        EntityKind::Ontology => 3,
        EntityKind::Other => 0,
    }
}

/// `kind_priority`.
pub fn kind_priority(kind: EntityKind) -> (r: u8)
    ensures
        r == priority(kind),
{
    match kind {
        EntityKind::Class => 5,
        EntityKind::ObjectProperty => 5,
        EntityKind::DataProperty => 5,
        EntityKind::AnnotationProperty => 5,
        EntityKind::Individual => 4,
        EntityKind::Datatype => 4,
        EntityKind::Ontology => 3,
        EntityKind::Other => 0,
    }
}

/// The oboInOwl namespace.
pub open spec fn obo_in_owl() -> Seq<char> {
    "http://www.geneontology.org/formats/oboInOwl#"@
}

/// The OBO PURL namespace.
pub open spec fn obo_purl() -> Seq<char> {
    "http://purl.obolibrary.org/obo/"@
}

/// An `obo:` local name as an IRI: synonym and cross-reference properties in oboInOwl, term
/// ids (with `_`) under the OBO PURL base, anything else in oboInOwl.
pub open spec fn obo_curie_iri(local: Seq<char>) -> Seq<char> {
    if local == "hasExactSynonym"@ || local == "hasBroadSynonym"@ || local == "hasNarrowSynonym"@
        || local == "hasRelatedSynonym"@ || local == "hasDbXref"@ {
        obo_in_owl() + local
    } else if local.contains('_') {
        obo_purl() + local
    } else {
        obo_in_owl() + local
    }
}

/// `expand_obo_curie`.
pub fn expand_obo_curie(local: &str) -> (r: String)
    ensures
        r@ == obo_curie_iri(local@),
{
    let l = chars_of(local);
    let ls = l.as_slice();
    let mut k: usize = 0;
    let mut underscore = false;
    while k < l.len()
        invariant
            0 <= k <= l.len(),
            underscore == exists|j: int| 0 <= j < k && l@[j] == '_',
        decreases l.len() - k,
    {
        if l[k] == '_' {
            underscore = true;
        }
        k += 1;
    }
    let base = if same_text(ls, "hasExactSynonym") || same_text(ls, "hasBroadSynonym") || same_text(ls, "hasNarrowSynonym")
        || same_text(ls, "hasRelatedSynonym") || same_text(ls, "hasDbXref") {
        "http://www.geneontology.org/formats/oboInOwl#"
    } else if underscore {
        "http://purl.obolibrary.org/obo/"
    } else {
        "http://www.geneontology.org/formats/oboInOwl#"
    };
    let mut out = chars_of(base);
    push_all(&mut out, ls);
    string_from(out.as_slice())
}

/// Index of the first `c` in `s`, or `s.len()`.
pub open spec fn first_index(s: Seq<char>, c: char) -> int {
    next_char(s, 0, c)
}

/// An annotation predicate as an IRI: full IRIs stay, `obo:` CURIEs expand, anything else
/// is not understood.
pub open spec fn annotation_predicate_iri(pred: Seq<char>) -> Option<Seq<char>> {
    if contains(pred, "://"@) {
        Some(pred)
    } else {
        let i = first_index(pred, ':');
        if i >= pred.len() {
            None
        } else if pred.take(i) == "obo"@ {
            Some(obo_curie_iri(pred.skip(i + 1)))
        } else {
            None
        }
    }
}

/// `expand_annotation_predicate`.
pub fn expand_annotation_predicate(pred: &str) -> (r: Option<String>)
    ensures
        match annotation_predicate_iri(pred@) {
            Some(x) => r matches Some(s) && s@ == x,
            None => r is None,
        },
{
    let p = chars_of(pred);
    let sep = chars_of("://");
    if contains_exec(p.as_slice(), sep.as_slice()) {
        return Some(string_from(p.as_slice()));
    }
    let i = next_char_exec(p.as_slice(), 0, ':');
    if i >= p.len() {
        return None;
    }
    let prefix = slice_chars(p.as_slice(), 0, i);
    if !same_text(prefix.as_slice(), "obo") {
        return None;
    }
    let local = slice_chars(p.as_slice(), i + 1, p.len());
    assert(local@ =~= pred@.skip(i + 1));
    assert(prefix@ =~= pred@.take(i as int));
    let s = string_from(local.as_slice());
    Some(expand_obo_curie(s.as_str()))
}

/// The default base of OBO identifiers.
pub open spec fn obo_default_base() -> Seq<char> {
    "http://purl.obolibrary.org/obo/"@
}

/// An OBO identifier as an IRI: IRIs stay; `PREFIX:LOCAL` under a declared id space becomes
/// the space's URL followed by `LOCAL` (when the URL already ends in `PREFIX_`) or by
/// `PREFIX_LOCAL`; anything else goes under the default base with `:` replaced by `_`.
pub open spec fn obo_iri(id: Seq<char>, ns: Seq<(Seq<char>, Seq<char>)>) -> Seq<char> {
    let i = first_index(id, ':');
    if starts_with(id, "http://"@) || starts_with(id, "https://"@) {
        id
    } else if i < id.len() && lookup(ns, id.take(i)) is Some {
        let p = id.take(i);
        let u = lookup(ns, p)->Some_0;
        if ends_with(u, p + "_"@) {
            u + id.skip(i + 1)
        } else {
            u + p + "_"@ + id.skip(i + 1)
        }
    } else {
        obo_default_base() + replace_all(id, ":"@, "_"@)
    }
}

/// `obo_id_to_iri`.
pub fn obo_id_to_iri(obo_id: &str, namespaces: &Namespaces) -> (r: String)
    ensures
        r@ == obo_iri(obo_id@, namespaces@),
{
    let id = chars_of(obo_id);
    let http = chars_of("http://");
    let https = chars_of("https://");
    if starts_with_exec(id.as_slice(), http.as_slice()) || starts_with_exec(id.as_slice(), https.as_slice()) {
        return string_from(id.as_slice());
    }
    let i = next_char_exec(id.as_slice(), 0, ':');
    if i < id.len() {
        let p = slice_chars(id.as_slice(), 0, i);
        assert(p@ =~= obo_id@.take(i as int));
        match namespaces.get_chars(p.as_slice()) {
            Some(u) => {
                let local = slice_chars(id.as_slice(), i + 1, id.len());
                assert(local@ =~= obo_id@.skip(i + 1));
                let mut pu = slice_chars(p.as_slice(), 0, p.len());
                assert(pu@ =~= p@);
                pu.push('_');
                let ghost pus = p@ + "_"@;
                proof {
                    reveal_strlit("_");
                }
                assert(pu@ =~= pus);
                let mut out = slice_chars(u.as_slice(), 0, u.len());
                assert(out@ =~= u@);
                if !ends_with_exec(u.as_slice(), pu.as_slice()) {
                    push_all(&mut out, p.as_slice());
                    out.push('_');
                }
                push_all(&mut out, local.as_slice());
                return string_from(out.as_slice());
            },
            None => {},
        }
    }
    let mut out = chars_of("http://purl.obolibrary.org/obo/");
    proof {
        reveal_strlit(":");
    }
    let norm = replace_str(id.as_slice(), ":", "_");
    push_all(&mut out, norm.as_slice());
    string_from(out.as_slice())
}

/// A Turtle prefix declaration line (`@prefix `, `@PREFIX ` or `PREFIX ` after trimming):
/// the prefix (before the first `<`, trimmed, trailing `:` removed) and the IRI (up to the
/// next `>`).
pub open spec fn turtle_prefix_line(line: Seq<char>) -> Option<(Seq<char>, Seq<char>)> {
    let t = trim(line);
    let rest = if starts_with(t, "@prefix "@) || starts_with(t, "@PREFIX "@) {
        Some(t.skip(8))
    } else if starts_with(t, "PREFIX "@) {
        Some(t.skip(7))
    } else {
        None
    };
    match rest {
        None => None,
        Some(r) => {
            let lt = first_index(r, '<');
            if lt >= r.len() {
                None
            } else {
                let iri = r.skip(lt + 1);
                Some((strip_trailing(trim(r.take(lt)), ':'), iri.take(first_index(iri, '>'))))
            }
        },
    }
}

fn turtle_prefix_line_exec(line: &[char]) -> (r: Option<(Vec<char>, Vec<char>)>)
    ensures
        match r {
            Some((p, u)) => turtle_prefix_line(line@) == Some((p@, u@)),
            None => turtle_prefix_line(line@) is None,
        },
{
    let t = trim_exec(line);
    let a = chars_of("@prefix ");
    let b = chars_of("@PREFIX ");
    let c = chars_of("PREFIX ");
    proof {
        reveal_strlit("@prefix ");
        reveal_strlit("@PREFIX ");
        reveal_strlit("PREFIX ");
    }
    let skip: usize = if starts_with_exec(t.as_slice(), a.as_slice()) || starts_with_exec(t.as_slice(), b.as_slice()) {
        8
    } else if starts_with_exec(t.as_slice(), c.as_slice()) {
        7
    } else {
        return None;
    };
    let r = slice_chars(t.as_slice(), skip, t.len());
    assert(r@ =~= t@.skip(skip as int));
    let lt = next_char_exec(r.as_slice(), 0, '<');
    if lt >= r.len() {
        return None;
    }
    let head = slice_chars(r.as_slice(), 0, lt);
    let iri = slice_chars(r.as_slice(), lt + 1, r.len());
    assert(iri@ =~= r@.skip(lt + 1));
    let gt = next_char_exec(iri.as_slice(), 0, '>');
    proof {
        lemma_next_char_bounds(iri@, 0, '>');
    }
    let u = slice_chars(iri.as_slice(), 0, gt);
    let p = strip_trailing_exec(trim_exec(head.as_slice()).as_slice(), ':');
    Some((p, u))
}

/// Prefixes declared by the lines of `t` from line start `i` on, added to `acc`; later
/// declarations win.
pub open spec fn turtle_prefixes_from(t: Seq<char>, i: int, acc: Seq<(Seq<char>, Seq<char>)>) -> Seq<(Seq<char>, Seq<char>)>
    decreases t.len() + 1 - i,
{
    if i < 0 || i >= t.len() {
        acc
    } else {
        proof {
            lemma_line_bounds(t, i);
        }
        turtle_prefixes_from(
            t,
            next_line_start(t, i),
            match turtle_prefix_line(line_at(t, i)) {
                Some((p, u)) => assoc_insert(acc, p, u),
                None => acc,
            },
        )
    }
}

/// The prefix declarations of a Turtle or TriG text (the Turtle branch of
/// `extract_declared_prefixes`).
pub fn turtle_declared_prefixes(source_text: &str) -> (r: Namespaces)
    ensures
        r@ == turtle_prefixes_from(source_text@, 0, Seq::empty()),
{
    let t = chars_of(source_text);
    let mut ns = Namespaces::new();
    let mut i: usize = 0;
    while i < t.len()
        invariant
            t@ == source_text@,
            i <= t.len(),
            turtle_prefixes_from(t@, 0, Seq::empty()) == turtle_prefixes_from(t@, i as int, ns@),
        decreases t.len() - i,
    {
        let (ce, nl) = line_bounds(t.as_slice(), i);
        let line = slice_chars(t.as_slice(), i, ce);
        match turtle_prefix_line_exec(line.as_slice()) {
            Some((p, u)) => {
                ns.insert_chars(p.as_slice(), u.as_slice());
            },
            None => {},
        }
        assert(line@ == line_at(t@, i as int));
        if nl >= t.len() {
            assert(turtle_prefixes_from(t@, nl + 1, ns@) == ns@);
            i = t.len();
        } else {
            i = nl + 1;
        }
    }
    ns
}

/// The pattern of an `xmlns` attribute: the optional prefix (group 1) and the namespace
/// (group 2).
pub open spec fn xmlns_pattern() -> Seq<char> {
    "xmlns(?::([A-Za-z][\\w-]*))?=\"([^\"]+)\""@
}

/// The text of a capture group, empty when it did not take part.
pub open spec fn group_text(t: Seq<char>, g: Option<(usize, usize)>) -> Seq<char> {
    match g {
        Some((a, b)) => byte_slice(t, a as int, b as int),
        None => Seq::empty(),
    }
}

/// The namespaces bound by the first `k` `xmlns` attributes found, with a non-empty
/// namespace, added to `acc`.
pub open spec fn xmlns_from(t: Seq<char>, caps: Seq<Capture>, k: int, acc: Seq<(Seq<char>, Seq<char>)>) -> Seq<(Seq<char>, Seq<char>)>
    decreases k,
{
    if k <= 0 || k > caps.len() {
        acc
    } else {
        let before = xmlns_from(t, caps, k - 1, acc);
        let iri = group_text(t, caps[k - 1].3);
        if iri.len() > 0 {
            assoc_insert(before, group_text(t, caps[k - 1].2), iri)
        } else {
            before
        }
    }
}

fn group_exec(text: &str, t: &[char], g: Option<(usize, usize)>) -> (r: Vec<char>)
    requires
        t@ == text@,
    ensures
        r@ == group_text(t@, g),
{
    match g {
        Some((x, y)) => {
            let p = char_at_byte_exec(t, x);
            let q = char_at_byte_exec(t, y);
            if p <= q { slice_chars(t, p, q) } else { Vec::new() }
        },
        None => Vec::new(),
    }
}

/// The namespaces an RDF/XML text binds, given the matches of `xmlns_pattern` in it.
pub fn xmlns_prefixes_from_captures(text: &str, caps: &Vec<Capture>) -> (r: Namespaces)
    ensures
        r@ == xmlns_from(text@, caps@, caps@.len() as int, Seq::empty()),
{
    let t = chars_of(text);
    let mut ns = Namespaces::new();
    let mut k: usize = 0;
    while k < caps.len()
        invariant
            t@ == text@,
            0 <= k <= caps.len(),
            ns@ == xmlns_from(text@, caps@, k as int, Seq::empty()),
        decreases caps.len() - k,
    {
        let c = caps[k];
        let iri = group_exec(text, t.as_slice(), c.3);
        if iri.len() > 0 {
            let p = group_exec(text, t.as_slice(), c.2);
            ns.insert_chars(p.as_slice(), iri.as_slice());
        }
        k += 1;
    }
    ns
}

/// The namespaces bound by the `xmlns` attributes of an RDF/XML text (the RDF/XML branch of
/// `extract_declared_prefixes`).
pub fn xmlns_declared_prefixes(source_text: &str) -> (r: Namespaces)
    ensures
        r@ == match regex_captures(xmlns_pattern(), source_text@) {
            Some(c) => xmlns_from(source_text@, c, c.len() as int, Seq::empty()),
            None => Seq::empty(),
        },
{
    proof {
        reveal_strlit("xmlns(?::([A-Za-z][\\w-]*))?=\"([^\"]+)\"");
    }
    match find_captures("xmlns(?::([A-Za-z][\\w-]*))?=\"([^\"]+)\"", source_text) {
        Some(c) => xmlns_prefixes_from_captures(source_text, &c),
        None => Namespaces::new(),
    }
}


/// The whitespace-separated words of `t` from `i` (`split_whitespace`).
pub open spec fn words_from(t: Seq<char>, i: int) -> Seq<Seq<char>>
    decreases t.len() - i,
{
    if i < 0 || i > t.len() {
        Seq::empty()
    } else {
        match token_after(t, i) {
            None => Seq::empty(),
            Some((s, e)) => if e <= i || e > t.len() {
                Seq::empty()
            } else {
                seq![t.subrange(s, e)] + words_from(t, e)
            },
        }
    }
}

/// `w` without one leading `+`.
pub open spec fn unsigned_digits(w: Seq<char>) -> Seq<char> {
    if w.len() > 0 && w[0] == '+' {
        w.drop_first()
    } else {
        w
    }
}

/// Whether every character of `d` is an ASCII digit.
pub open spec fn all_ascii_digits(d: Seq<char>) -> bool {
    forall|i: int| 0 <= i < d.len() ==> is_ascii_digit(#[trigger] d[i])
}

/// `u64::from_str`: an optional `+`, then one or more ASCII digits whose value fits.
pub open spec fn parsed_u64(w: Seq<char>) -> Option<u64> {
    let d = unsigned_digits(w);
    if d.len() > 0 && all_ascii_digits(d) && digits_value(d) <= u64::MAX {
        Some(digits_value(d) as u64)
    } else {
        None
    }
}

/// Whether a word names the line (`column` false) or the column (`column` true).
pub open spec fn is_position_word(w: Seq<char>, column: bool) -> bool {
    if column {
        eq_ignore_case(w, "column"@) || eq_ignore_case(w, "col"@)
    } else {
        eq_ignore_case(w, "line"@)
    }
}

/// The number after the first naming word, from `k` on, that is followed by a number
/// (trailing colons dropped).
pub open spec fn number_after(ws: Seq<Seq<char>>, k: int, column: bool) -> Option<u64>
    decreases ws.len() - k,
{
    if k < 0 || k + 1 >= ws.len() {
        None
    } else if is_position_word(ws[k], column) && parsed_u64(strip_trailing(ws[k + 1], ':')) is Some {
        parsed_u64(strip_trailing(ws[k + 1], ':'))
    } else {
        number_after(ws, k + 1, column)
    }
}

/// Where a parser's error message places the error (`extract_parse_error_location`): the
/// numbers after the words `line` and `column` (or `col`), when either is there.
pub open spec fn error_location(msg: Seq<char>) -> Option<SourceLocation> {
    let ws = words_from(msg, 0);
    let line = number_after(ws, 0, false);
    let column = number_after(ws, 0, true);
    if line is Some || column is Some {
        Some(SourceLocation { line, column, start_byte: None, end_byte: None })
    } else {
        None
    }
}

fn words_exec(t: &[char]) -> (r: Vec<Vec<char>>)
    ensures
        texts_of(r@) == words_from(t@, 0),
{
    let mut out: Vec<Vec<char>> = Vec::new();
    let mut i: usize = 0;
    while i <= t.len()
        invariant
            0 <= i <= t.len() + 1,
            i <= t.len() ==> words_from(t@, 0) == texts_of(out@) + words_from(t@, i as int),
            i > t.len() ==> words_from(t@, 0) == texts_of(out@),
        decreases t.len() + 1 - i,
    {
        match token_after_exec(t, i) {
            None => {
                assert(texts_of(out@) + Seq::<Seq<char>>::empty() =~= texts_of(out@));
                return out;
            },
            Some((s, e)) => {
                let w = slice_chars(t, s, e);
                let ghost before = out@;
                out.push(w);
                assert(texts_of(out@) =~= texts_of(before).push(w@));
                assert(texts_of(before) + (seq![t@.subrange(s as int, e as int)] + words_from(t@, e as int))
                    =~= texts_of(out@) + words_from(t@, e as int));
                i = e;
            },
        }
    }
    out
}

fn parse_u64_exec(w: &[char]) -> (r: Option<u64>)
    ensures
        r == parsed_u64(w@),
{
    let start: usize = if w.len() > 0 && w[0] == '+' {
        1
    } else {
        0
    };
    let ghost d = unsigned_digits(w@);
    assert(d =~= w@.subrange(start as int, w@.len() as int));
    if start >= w.len() {
        return None;
    }
    let mut k: usize = start;
    let mut v: u128 = 0;
    while k < w.len()
        invariant
            start <= k <= w.len(),
            d == w@.subrange(start as int, w@.len() as int),
            d == unsigned_digits(w@),
            forall|m: int| start <= m < k ==> is_ascii_digit(#[trigger] w@[m]),
            v == digits_value(w@.subrange(start as int, k as int)),
            v <= u64::MAX,
        decreases w.len() - k,
    {
        let c = w[k];
        if !('0' <= c && c <= '9') {
            assert(d[k - start] == c);
            assert(!is_ascii_digit(d[k - start]));
            assert(!all_ascii_digits(d));
            return None;
        }
        let ghost p = w@.subrange(start as int, k as int);
        assert(w@.subrange(start as int, k + 1) =~= p.push(c));
        assert(w@.subrange(start as int, k + 1).drop_last() =~= p);
        let nv: u128 = v * 10 + (c as u32 - 48) as u128;
        assert(digits_value(w@.subrange(start as int, k + 1)) == nv);
        if nv > 18446744073709551615 {
            proof {
                assert(d.take(k + 1 - start) =~= w@.subrange(start as int, k + 1));
                assert forall|i: int| 0 <= i < k + 1 - start implies is_ascii_digit(#[trigger] d[i]) by {
                    assert(d[i] == w@[start + i]);
                }
                lemma_digits_value_grows(d, k + 1 - start);
            }
            return None;
        }
        v = nv;
        k += 1;
    }
    assert(w@.subrange(start as int, k as int) =~= d);
    Some(v as u64)
}

/// A digit run's value is at least that of any of its prefixes.
proof fn lemma_digits_value_grows(d: Seq<char>, n: int)
    requires
        0 <= n <= d.len(),
        forall|i: int| 0 <= i < n ==> is_ascii_digit(#[trigger] d[i]),
    ensures
        all_ascii_digits(d) ==> digits_value(d) >= digits_value(d.take(n)),
    decreases d.len() - n,
{
    if n < d.len() && all_ascii_digits(d) {
        lemma_digits_value_grows(d, n + 1);
        assert(d.take(n + 1).drop_last() =~= d.take(n));
        assert(d.take(n + 1).last() == d[n]);
        assert(is_ascii_digit(d[n]));
    } else if n == d.len() {
        assert(d.take(n) =~= d);
    }
}

fn number_after_exec(ws: &Vec<Vec<char>>, column: bool) -> (r: Option<u64>)
    ensures
        r == number_after(texts_of(ws@), 0, column),
{
    let ghost wv = texts_of(ws@);
    let line_word = chars_of("line");
    let column_word = chars_of("column");
    let col_word = chars_of("col");
    let mut k: usize = 0;
    while k < ws.len() && k + 1 < ws.len()
        invariant
            wv == texts_of(ws@),
            wv.len() == ws.len(),
            0 <= k <= ws.len(),
            number_after(wv, 0, column) == number_after(wv, k as int, column),
            line_word@ == "line"@,
            column_word@ == "column"@,
            col_word@ == "col"@,
        decreases ws.len() - k,
    {
        assert(wv[k as int] == ws@[k as int]@);
        assert(wv[k + 1] == ws@[k + 1]@);
        let w = ws[k].as_slice();
        let named = if column {
            eq_ignore_case_exec(w, column_word.as_slice()) || eq_ignore_case_exec(w, col_word.as_slice())
        } else {
            eq_ignore_case_exec(w, line_word.as_slice())
        };
        if named {
            let stripped = strip_trailing_exec(ws[k + 1].as_slice(), ':');
            match parse_u64_exec(stripped.as_slice()) {
                Some(v) => {
                    return Some(v);
                },
                None => {},
            }
        }
        k += 1;
    }
    None
}

/// `extract_parse_error_location`: where a parser's error message places the error.
pub fn extract_parse_error_location(message: &str) -> (r: Option<SourceLocation>)
    ensures
        r == error_location(message@),
{
    let t = chars_of(message);
    let ws = words_exec(t.as_slice());
    let line = number_after_exec(&ws, false);
    let column = number_after_exec(&ws, true);
    if line.is_some() || column.is_some() {
        Some(SourceLocation { line, column, start_byte: None, end_byte: None })
    } else {
        None
    }
}

} // verus!
