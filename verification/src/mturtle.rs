//! Turtle written for class expressions and data ranges: blank-node restrictions, class
//! constructors and datatype definitions.
use vstd::prelude::*;
use crate::error::{err_of, ErrKind, OwlError};
use crate::iri::{iri_to_turtle_term, safe_iri, turtle_term, unsafe_iri_detail};
use crate::literal::{escape_turtle, escape_turtle_string};
use crate::mexpr::{
    exprs_v, facets_v, lemma_exprs_index, lemma_ranges_index, range_v, ranges_v, texts_of,
    ClassExpression, DataRange, ExprV, Facet, RangeV,
};
use crate::namespaces::Namespaces;
use crate::text::{chars_of, decimal, decimal_exec, push_all, push_str};

verus! {

/// `"    ".repeat(n)`.
pub open spec fn pad(n: nat) -> Seq<char>
    decreases n,
{
    if n == 0 {
        Seq::empty()
    } else {
        pad((n - 1) as nat) + "    "@
    }
}

/// Turtle term of an IRI inside an expression, or the error detail for an unsafe IRI.
pub open spec fn term_m(iri: Seq<char>, ns: Seq<(Seq<char>, Seq<char>)>) -> Result<
    Seq<char>,
    Seq<char>,
> {
    if safe_iri(iri) {
        Ok(turtle_term(iri, ns))
    } else {
        Err("patch validation failed: "@ + unsafe_iri_detail(iri))
    }
}

/// `[ a owl:Restriction ; owl:onProperty prop ; key value ]` laid out over lines, with the
/// inner lines indented by `q` and the closing bracket by `p`.
pub open spec fn restriction_block(
    p: Seq<char>,
    q: Seq<char>,
    prop: Seq<char>,
    key: Seq<char>,
    value: Seq<char>,
) -> Seq<char> {
    "[\n"@ + q + "a owl:Restriction ;\n"@ + q + "owl:onProperty "@ + prop + " ;\n"@ + q + key
        + " "@ + value + "\n"@ + p + "]"@
}

/// `[ a owl:Class ; key value ]` laid out over lines.
pub open spec fn class_block(p: Seq<char>, q: Seq<char>, key: Seq<char>, value: Seq<char>) -> Seq<
    char,
> {
    "[\n"@ + q + "a owl:Class ;\n"@ + q + key + " "@ + value + "\n"@ + p + "]"@
}

/// A qualified cardinality restriction laid out over lines.
pub open spec fn card_block(
    p: Seq<char>,
    q: Seq<char>,
    prop: Seq<char>,
    pred: Seq<char>,
    n: u32,
    key: Seq<char>,
    filler: Seq<char>,
) -> Seq<char> {
    "[\n"@ + q + "a owl:Restriction ;\n"@ + q + "owl:onProperty "@ + prop + " ;\n"@ + q + pred
        + " \""@ + decimal(n as nat) + "\"^^<http://www.w3.org/2001/XMLSchema#nonNegativeInteger> ;\n"@
        + q + key + " "@ + filler + "\n"@ + p + "]"@
}

/// Full IRI of a facet.
pub open spec fn facet_iri(f: Facet) -> Seq<char> {
    match f {
        Facet::MinInclusive => "http://www.w3.org/2001/XMLSchema#minInclusive"@,
        Facet::MaxInclusive => "http://www.w3.org/2001/XMLSchema#maxInclusive"@,
        Facet::MinExclusive => "http://www.w3.org/2001/XMLSchema#minExclusive"@,
        Facet::MaxExclusive => "http://www.w3.org/2001/XMLSchema#maxExclusive"@,
        Facet::Length => "http://www.w3.org/2001/XMLSchema#length"@,
        Facet::MinLength => "http://www.w3.org/2001/XMLSchema#minLength"@,
        Facet::MaxLength => "http://www.w3.org/2001/XMLSchema#maxLength"@,
        Facet::Pattern => "http://www.w3.org/2001/XMLSchema#pattern"@,
        Facet::TotalDigits => "http://www.w3.org/2001/XMLSchema#totalDigits"@,
        Facet::FractionDigits => "http://www.w3.org/2001/XMLSchema#fractionDigits"@,
    }
}

/// A double-quoted, escaped Turtle string.
pub open spec fn quoted(s: Seq<char>) -> Seq<char> {
    "\""@ + escape_turtle(s) + "\""@
}

/// ` [ facet "value" ]` for the first `k` facets.
pub open spec fn facets_t(fs: Seq<(Facet, Seq<char>)>, k: int, ns: Seq<(Seq<char>, Seq<char>)>) -> Result<
    Seq<char>,
    Seq<char>,
>
    decreases k,
{
    if k <= 0 || k > fs.len() {
        Ok(Seq::empty())
    } else {
        match facets_t(fs, k - 1, ns) {
            Err(e) => Err(e),
            Ok(a) => match term_m(facet_iri(fs[k - 1].0), ns) {
                Err(e) => Err(e),
                Ok(ft) => Ok(a + " [ "@ + ft + " "@ + quoted(fs[k - 1].1) + " ]"@),
            },
        }
    }
}

/// The first `k` literals, quoted and separated by blanks.
pub open spec fn quoted_join(lits: Seq<Seq<char>>, k: int) -> Seq<char>
    decreases k,
{
    if k <= 0 || k > lits.len() {
        Seq::empty()
    } else if k == 1 {
        quoted(lits[0])
    } else {
        quoted_join(lits, k - 1) + " "@ + quoted(lits[k - 1])
    }
}

/// `data_range_to_turtle`: the Turtle term of a data range.
pub open spec fn dr_turtle(r: RangeV, ns: Seq<(Seq<char>, Seq<char>)>) -> Result<Seq<char>, Seq<char>>
    decreases r, 0int,
{
    match r {
        RangeV::Datatype(d) => term_m(d, ns),
        RangeV::DatatypeRestriction(d, fs) => match term_m(d, ns) {
            Err(e) => Err(e),
            Ok(on) => match facets_t(fs, fs.len() as int, ns) {
                Err(e) => Err(e),
                Ok(rs) => Ok(
                    "[ a rdfs:Datatype ; owl:onDatatype "@ + on + " ; owl:withRestrictions ("@ + rs
                        + " ) ]"@,
                ),
            },
        },
        RangeV::DataOneOf(lits) => Ok(
            "[ a rdfs:Datatype ; owl:oneOf ( "@ + quoted_join(lits, lits.len() as int) + " ) ]"@,
        ),
        RangeV::DataComplementOf(b) => match dr_turtle(*b, ns) {
            Err(e) => Err(e),
            Ok(x) => Ok("[ a rdfs:Datatype ; owl:datatypeComplementOf "@ + x + " ]"@),
        },
        RangeV::DataIntersectionOf(parts) => match dr_concat(parts, parts.len() as int, ns) {
            Err(e) => Err(e),
            Ok(m) => Ok("[ a rdfs:Datatype ; owl:intersectionOf ("@ + m + " ) ]"@),
        },
        RangeV::DataUnionOf(parts) => match dr_concat(parts, parts.len() as int, ns) {
            Err(e) => Err(e),
            Ok(m) => Ok("[ a rdfs:Datatype ; owl:unionOf ("@ + m + " ) ]"@),
        },
    }
}

/// ` t` for the Turtle term `t` of each of the first `k` data ranges.
pub open spec fn dr_concat(parts: Seq<RangeV>, k: int, ns: Seq<(Seq<char>, Seq<char>)>) -> Result<
    Seq<char>,
    Seq<char>,
>
    decreases parts, k,
{
    if k <= 0 || k > parts.len() {
        Ok(Seq::empty())
    } else {
        match dr_concat(parts, k - 1, ns) {
            Err(e) => Err(e),
            Ok(a) => match dr_turtle(parts[k - 1], ns) {
                Err(e) => Err(e),
                Ok(x) => Ok(a + " "@ + x),
            },
        }
    }
}

/// `class_expression_to_turtle_value`: the Turtle value of a class expression whose closing
/// bracket is indented by `indent` levels.
pub open spec fn ce_turtle(e: ExprV, ns: Seq<(Seq<char>, Seq<char>)>, indent: nat) -> Result<
    Seq<char>,
    Seq<char>,
>
    decreases e, 0int,
{
    let p = pad(indent);
    let q = pad(indent + 1);
    match e {
        ExprV::Class(c) => term_m(c, ns),
        ExprV::ObjectIntersectionOf(v) => if v.len() == 1 {
            ce_turtle(v[0], ns, indent)
        } else if v.len() == 0 {
            Err("empty intersection expression"@)
        } else {
            match ce_join(v, v.len() as int, ns, indent + 2) {
                Err(e) => Err(e),
                Ok(l) => Ok(class_block(p, q, "owl:intersectionOf"@, "( "@ + l + " )"@)),
            }
        },
        ExprV::ObjectUnionOf(v) => if v.len() == 1 {
            ce_turtle(v[0], ns, indent)
        } else if v.len() == 0 {
            Err("empty union expression"@)
        } else {
            match ce_join(v, v.len() as int, ns, indent + 2) {
                Err(e) => Err(e),
                Ok(l) => Ok(class_block(p, q, "owl:unionOf"@, "( "@ + l + " )"@)),
            }
        },
        ExprV::ObjectSomeValuesFrom { ope, bce } => match term_m(ope, ns) {
            Err(e) => Err(e),
            Ok(pr) => match ce_turtle(*bce, ns, indent + 1) {
                Err(e) => Err(e),
                Ok(f) => Ok(restriction_block(p, q, pr, "owl:someValuesFrom"@, f)),
            },
        },
        ExprV::ObjectAllValuesFrom { ope, bce } => match term_m(ope, ns) {
            Err(e) => Err(e),
            Ok(pr) => match ce_turtle(*bce, ns, indent + 1) {
                Err(e) => Err(e),
                Ok(f) => Ok(restriction_block(p, q, pr, "owl:allValuesFrom"@, f)),
            },
        },
        ExprV::ObjectMinCardinality { n, ope, bce } => match term_m(ope, ns) {
            Err(e) => Err(e),
            Ok(pr) => match ce_turtle(*bce, ns, indent + 1) {
                Err(e) => Err(e),
                Ok(f) => Ok(
                    card_block(p, q, pr, "owl:minQualifiedCardinality"@, n, "owl:onClass"@, f),
                ),
            },
        },
        ExprV::ObjectMaxCardinality { n, ope, bce } => match term_m(ope, ns) {
            Err(e) => Err(e),
            Ok(pr) => match ce_turtle(*bce, ns, indent + 1) {
                Err(e) => Err(e),
                Ok(f) => Ok(
                    card_block(p, q, pr, "owl:maxQualifiedCardinality"@, n, "owl:onClass"@, f),
                ),
            },
        },
        ExprV::ObjectExactCardinality { n, ope, bce } => match term_m(ope, ns) {
            Err(e) => Err(e),
            Ok(pr) => match ce_turtle(*bce, ns, indent + 1) {
                Err(e) => Err(e),
                Ok(f) => Ok(card_block(p, q, pr, "owl:qualifiedCardinality"@, n, "owl:onClass"@, f)),
            },
        },
        ExprV::ObjectComplementOf(b) => match ce_turtle(*b, ns, indent + 1) {
            Err(e) => Err(e),
            Ok(c) => Ok(class_block(p, q, "owl:complementOf"@, c)),
        },
        ExprV::ObjectHasValue { ope, i } => match term_m(ope, ns) {
            Err(e) => Err(e),
            Ok(pr) => match term_m(i, ns) {
                Err(e) => Err(e),
                Ok(it) => Ok(restriction_block(p, q, pr, "owl:hasValue"@, it)),
            },
        },
        ExprV::ObjectHasSelf(ope) => match term_m(ope, ns) {
            Err(e) => Err(e),
            Ok(pr) => Ok(restriction_block(p, q, pr, "owl:hasSelf"@, "true"@)),
        },
        ExprV::ObjectOneOf(inds) => match terms_join(inds, inds.len() as int, ns) {
            Err(e) => Err(e),
            Ok(l) => Ok(class_block(p, q, "owl:oneOf"@, "( "@ + l + " )"@)),
        },
        ExprV::DataSomeValuesFrom { dp, dr } => match term_m(dp, ns) {
            Err(e) => Err(e),
            Ok(pr) => match dr_turtle(dr, ns) {
                Err(e) => Err(e),
                Ok(rt) => Ok(restriction_block(p, q, pr, "owl:someValuesFrom"@, rt)),
            },
        },
        ExprV::DataAllValuesFrom { dp, dr } => match term_m(dp, ns) {
            Err(e) => Err(e),
            Ok(pr) => match dr_turtle(dr, ns) {
                Err(e) => Err(e),
                Ok(rt) => Ok(restriction_block(p, q, pr, "owl:allValuesFrom"@, rt)),
            },
        },
        ExprV::DataHasValue { dp, l } => match term_m(dp, ns) {
            Err(e) => Err(e),
            Ok(pr) => Ok(restriction_block(p, q, pr, "owl:hasValue"@, quoted(l))),
        },
        ExprV::DataMinCardinality { n, dp, dr } => match term_m(dp, ns) {
            Err(e) => Err(e),
            Ok(pr) => match dr_turtle(dr, ns) {
                Err(e) => Err(e),
                Ok(rt) => Ok(
                    card_block(p, q, pr, "owl:minQualifiedCardinality"@, n, "owl:onDataRange"@, rt),
                ),
            },
        },
        ExprV::DataMaxCardinality { n, dp, dr } => match term_m(dp, ns) {
            Err(e) => Err(e),
            Ok(pr) => match dr_turtle(dr, ns) {
                Err(e) => Err(e),
                Ok(rt) => Ok(
                    card_block(p, q, pr, "owl:maxQualifiedCardinality"@, n, "owl:onDataRange"@, rt),
                ),
            },
        },
        ExprV::DataExactCardinality { n, dp, dr } => match term_m(dp, ns) {
            Err(e) => Err(e),
            Ok(pr) => match dr_turtle(dr, ns) {
                Err(e) => Err(e),
                Ok(rt) => Ok(
                    card_block(p, q, pr, "owl:qualifiedCardinality"@, n, "owl:onDataRange"@, rt),
                ),
            },
        },
    }
}

/// The Turtle values of the first `k` expressions at `indent`, separated by blanks.
pub open spec fn ce_join(v: Seq<ExprV>, k: int, ns: Seq<(Seq<char>, Seq<char>)>, indent: nat) -> Result<
    Seq<char>,
    Seq<char>,
>
    decreases v, k,
{
    if k <= 0 || k > v.len() {
        Ok(Seq::empty())
    } else {
        match ce_join(v, k - 1, ns, indent) {
            Err(e) => Err(e),
            Ok(a) => match ce_turtle(v[k - 1], ns, indent) {
                Err(e) => Err(e),
                Ok(x) => Ok(if k == 1 { x } else { a + " "@ + x }),
            },
        }
    }
}

/// The Turtle terms of the first `k` IRIs, separated by blanks.
pub open spec fn terms_join(v: Seq<Seq<char>>, k: int, ns: Seq<(Seq<char>, Seq<char>)>) -> Result<
    Seq<char>,
    Seq<char>,
>
    decreases k,
{
    if k <= 0 || k > v.len() {
        Ok(Seq::empty())
    } else {
        match terms_join(v, k - 1, ns) {
            Err(e) => Err(e),
            Ok(a) => match term_m(v[k - 1], ns) {
                Err(e) => Err(e),
                Ok(x) => Ok(if k == 1 { x } else { a + " "@ + x }),
            },
        }
    }
}

pub proof fn lemma_facets_t_err(fs: Seq<(Facet, Seq<char>)>, k: int, m: int, ns: Seq<(Seq<char>, Seq<char>)>)
    requires
        0 <= k <= m <= fs.len(),
        facets_t(fs, k, ns) is Err,
    ensures
        facets_t(fs, m, ns) == facets_t(fs, k, ns),
    decreases m - k,
{
    if m > k {
        lemma_facets_t_err(fs, k, m - 1, ns);
    }
}

pub proof fn lemma_dr_concat_err(parts: Seq<RangeV>, k: int, m: int, ns: Seq<(Seq<char>, Seq<char>)>)
    requires
        0 <= k <= m <= parts.len(),
        dr_concat(parts, k, ns) is Err,
    ensures
        dr_concat(parts, m, ns) == dr_concat(parts, k, ns),
    decreases m - k,
{
    if m > k {
        lemma_dr_concat_err(parts, k, m - 1, ns);
    }
}

pub proof fn lemma_ce_join_err(v: Seq<ExprV>, k: int, m: int, ns: Seq<(Seq<char>, Seq<char>)>, indent: nat)
    requires
        0 <= k <= m <= v.len(),
        ce_join(v, k, ns, indent) is Err,
    ensures
        ce_join(v, m, ns, indent) == ce_join(v, k, ns, indent),
    decreases m - k,
{
    if m > k {
        lemma_ce_join_err(v, k, m - 1, ns, indent);
    }
}

pub proof fn lemma_terms_join_err(v: Seq<Seq<char>>, k: int, m: int, ns: Seq<(Seq<char>, Seq<char>)>)
    requires
        0 <= k <= m <= v.len(),
        terms_join(v, k, ns) is Err,
    ensures
        terms_join(v, m, ns) == terms_join(v, k, ns),
    decreases m - k,
{
    if m > k {
        lemma_terms_join_err(v, k, m - 1, ns);
    }
}

/// A rendering result as mathematical values.
pub open spec fn rs(r: Result<Vec<char>, Vec<char>>) -> Result<Seq<char>, Seq<char>> {
    match r {
        Ok(v) => Ok(v@),
        Err(m) => Err(m@),
    }
}

fn term_exec(iri: &[char], ns: &Namespaces) -> (r: Result<Vec<char>, Vec<char>>)
    ensures
        rs(r) == term_m(iri@, ns@),
{
    match iri_to_turtle_term(iri, ns) {
        Ok(t) => Ok(t),
        Err(e) => {
            let mut m = chars_of("patch validation failed: ");
            match e {
                OwlError::PatchInvalid(d) => {
                    push_str(&mut m, d.as_str());
                },
                _ => {},
            }
            Err(m)
        },
    }
}

fn restriction_block_exec(p: &[char], q: &[char], prop: &[char], key: &str, value: &[char]) -> (r: Vec<char>)
    ensures
        r@ == restriction_block(p@, q@, prop@, key@, value@),
{
    let mut out = chars_of("[\n");
    push_all(&mut out, q);
    push_str(&mut out, "a owl:Restriction ;\n");
    push_all(&mut out, q);
    push_str(&mut out, "owl:onProperty ");
    push_all(&mut out, prop);
    push_str(&mut out, " ;\n");
    push_all(&mut out, q);
    push_str(&mut out, key);
    push_str(&mut out, " ");
    push_all(&mut out, value);
    push_str(&mut out, "\n");
    push_all(&mut out, p);
    push_str(&mut out, "]");
    out
}

fn class_block_exec(p: &[char], q: &[char], key: &str, value: &[char]) -> (r: Vec<char>)
    ensures
        r@ == class_block(p@, q@, key@, value@),
{
    let mut out = chars_of("[\n");
    push_all(&mut out, q);
    push_str(&mut out, "a owl:Class ;\n");
    push_all(&mut out, q);
    push_str(&mut out, key);
    push_str(&mut out, " ");
    push_all(&mut out, value);
    push_str(&mut out, "\n");
    push_all(&mut out, p);
    push_str(&mut out, "]");
    out
}

fn card_block_exec(
    p: &[char],
    q: &[char],
    prop: &[char],
    pred: &str,
    n: u32,
    key: &str,
    filler: &[char],
) -> (r: Vec<char>)
    ensures
        r@ == card_block(p@, q@, prop@, pred@, n, key@, filler@),
{
    let mut out = chars_of("[\n");
    push_all(&mut out, q);
    push_str(&mut out, "a owl:Restriction ;\n");
    push_all(&mut out, q);
    push_str(&mut out, "owl:onProperty ");
    push_all(&mut out, prop);
    push_str(&mut out, " ;\n");
    push_all(&mut out, q);
    push_str(&mut out, pred);
    push_str(&mut out, " \"");
    push_all(&mut out, decimal_exec(n as u64).as_slice());
    push_str(&mut out, "\"^^<http://www.w3.org/2001/XMLSchema#nonNegativeInteger> ;\n");
    push_all(&mut out, q);
    push_str(&mut out, key);
    push_str(&mut out, " ");
    push_all(&mut out, filler);
    push_str(&mut out, "\n");
    push_all(&mut out, p);
    push_str(&mut out, "]");
    out
}

fn facet_iri_exec(f: Facet) -> (r: Vec<char>)
    ensures
        r@ == facet_iri(f),
{
    match f {
        Facet::MinInclusive => chars_of("http://www.w3.org/2001/XMLSchema#minInclusive"),
        Facet::MaxInclusive => chars_of("http://www.w3.org/2001/XMLSchema#maxInclusive"),
        Facet::MinExclusive => chars_of("http://www.w3.org/2001/XMLSchema#minExclusive"),
        Facet::MaxExclusive => chars_of("http://www.w3.org/2001/XMLSchema#maxExclusive"),
        Facet::Length => chars_of("http://www.w3.org/2001/XMLSchema#length"),
        Facet::MinLength => chars_of("http://www.w3.org/2001/XMLSchema#minLength"),
        Facet::MaxLength => chars_of("http://www.w3.org/2001/XMLSchema#maxLength"),
        Facet::Pattern => chars_of("http://www.w3.org/2001/XMLSchema#pattern"),
        Facet::TotalDigits => chars_of("http://www.w3.org/2001/XMLSchema#totalDigits"),
        Facet::FractionDigits => chars_of("http://www.w3.org/2001/XMLSchema#fractionDigits"),
    }
}

fn quoted_exec(s: &[char]) -> (r: Vec<char>)
    ensures
        r@ == quoted(s@),
{
    let mut out = chars_of("\"");
    push_all(&mut out, escape_turtle_string(s).as_slice());
    push_str(&mut out, "\"");
    out
}

fn facets_exec(fs: &Vec<(Facet, Vec<char>)>, ns: &Namespaces) -> (r: Result<Vec<char>, Vec<char>>)
    ensures
        rs(r) == facets_t(facets_v(fs@), fs.len() as int, ns@),
{
    let ghost v = facets_v(fs@);
    let mut out: Vec<char> = Vec::new();
    let mut k: usize = 0;
    while k < fs.len()
        invariant
            v == facets_v(fs@),
            v.len() == fs.len(),
            0 <= k <= fs.len(),
            facets_t(v, k as int, ns@) == Ok::<Seq<char>, Seq<char>>(out@),
        decreases fs.len() - k,
    {
        let fi = facet_iri_exec(fs[k].0);
        let ft = match term_exec(fi.as_slice(), ns) {
            Err(e) => {
                proof {
                    lemma_facets_t_err(v, k + 1, fs.len() as int, ns@);
                }
                return Err(e);
            },
            Ok(x) => x,
        };
        push_str(&mut out, " [ ");
        push_all(&mut out, ft.as_slice());
        push_str(&mut out, " ");
        push_all(&mut out, quoted_exec(fs[k].1.as_slice()).as_slice());
        push_str(&mut out, " ]");
        k += 1;
    }
    Ok(out)
}

fn quoted_join_exec(lits: &Vec<Vec<char>>) -> (r: Vec<char>)
    ensures
        r@ == quoted_join(texts_of(lits@), lits.len() as int),
{
    let ghost v = texts_of(lits@);
    let mut out: Vec<char> = Vec::new();
    let mut k: usize = 0;
    while k < lits.len()
        invariant
            v == texts_of(lits@),
            v.len() == lits.len(),
            0 <= k <= lits.len(),
            out@ == quoted_join(v, k as int),
        decreases lits.len() - k,
    {
        if k > 0 {
            push_str(&mut out, " ");
        }
        push_all(&mut out, quoted_exec(lits[k].as_slice()).as_slice());
        k += 1;
    }
    out
}

/// `data_range_to_turtle_term`: the Turtle term of a data range (used for datatype
/// definitions), or the error detail.
pub(crate) fn dr_turtle_exec(dr: &DataRange, ns: &Namespaces) -> (r: Result<Vec<char>, Vec<char>>)
    ensures
        rs(r) == dr_turtle(dr@, ns@),
    decreases dr, 2int,
{
    match dr {
        DataRange::Datatype(d) => term_exec(d.as_slice(), ns),
        DataRange::DatatypeRestriction(d, fs) => {
            let on = match term_exec(d.as_slice(), ns) {
                Err(e) => {
                    return Err(e);
                },
                Ok(x) => x,
            };
            let rs_ = match facets_exec(fs, ns) {
                Err(e) => {
                    return Err(e);
                },
                Ok(x) => x,
            };
            let mut out = chars_of("[ a rdfs:Datatype ; owl:onDatatype ");
            push_all(&mut out, on.as_slice());
            push_str(&mut out, " ; owl:withRestrictions (");
            push_all(&mut out, rs_.as_slice());
            push_str(&mut out, " ) ]");
            Ok(out)
        },
        DataRange::DataOneOf(lits) => {
            let mut out = chars_of("[ a rdfs:Datatype ; owl:oneOf ( ");
            push_all(&mut out, quoted_join_exec(lits).as_slice());
            push_str(&mut out, " ) ]");
            Ok(out)
        },
        DataRange::DataComplementOf(b) => {
            let x = match dr_turtle_exec(b, ns) {
                Err(e) => {
                    return Err(e);
                },
                Ok(x) => x,
            };
            let mut out = chars_of("[ a rdfs:Datatype ; owl:datatypeComplementOf ");
            push_all(&mut out, x.as_slice());
            push_str(&mut out, " ]");
            Ok(out)
        },
        DataRange::DataIntersectionOf(parts) => {
            let m = match dr_list_exec(parts, ns, Ghost(*dr)) {
                Err(e) => {
                    return Err(e);
                },
                Ok(x) => x,
            };
            let mut out = chars_of("[ a rdfs:Datatype ; owl:intersectionOf (");
            push_all(&mut out, m.as_slice());
            push_str(&mut out, " ) ]");
            Ok(out)
        },
        DataRange::DataUnionOf(parts) => {
            let m = match dr_list_exec(parts, ns, Ghost(*dr)) {
                Err(e) => {
                    return Err(e);
                },
                Ok(x) => x,
            };
            let mut out = chars_of("[ a rdfs:Datatype ; owl:unionOf (");
            push_all(&mut out, m.as_slice());
            push_str(&mut out, " ) ]");
            Ok(out)
        },
    }
}

fn dr_list_exec(parts: &Vec<DataRange>, ns: &Namespaces, Ghost(parent): Ghost<DataRange>) -> (r: Result<Vec<char>, Vec<char>>)
    requires
        decreases_to!(parent => parts),
    ensures
        rs(r) == dr_concat(ranges_v(parts@), parts.len() as int, ns@),
        ranges_v(parts@).len() == parts.len(),
    decreases parent, 1int,
{
    let ghost pv = ranges_v(parts@);
    proof {
        lemma_ranges_index(parts@);
    }
    let mut m: Vec<char> = Vec::new();
    let mut k: usize = 0;
    while k < parts.len()
        invariant
            pv == ranges_v(parts@),
            pv.len() == parts.len(),
            forall|j: int| 0 <= j < parts.len() ==> #[trigger] pv[j] == range_v(parts@[j]),
            decreases_to!(parent => parts),
            0 <= k <= parts.len(),
            dr_concat(pv, k as int, ns@) == Ok::<Seq<char>, Seq<char>>(m@),
        decreases parts.len() - k,
    {
        assert(pv[k as int] == parts@[k as int]@);
        proof {
            assert(decreases_to!(parts => parts[k as int]));
        }
        let x = match dr_turtle_exec(&parts[k], ns) {
            Err(e) => {
                assert(dr_concat(pv, k + 1, ns@) == Err::<Seq<char>, Seq<char>>(e@));
                proof {
                    lemma_dr_concat_err(pv, k + 1, parts.len() as int, ns@);
                }
                return Err(e);
            },
            Ok(x) => x,
        };
        push_str(&mut m, " ");
        push_all(&mut m, x.as_slice());
        k += 1;
    }
    Ok(m)
}

fn deeper(p: &Vec<char>, Ghost(indent): Ghost<nat>) -> (r: Vec<char>)
    requires
        p@ == pad(indent),
    ensures
        r@ == pad(indent + 1),
{
    let mut q = crate::text::slice_chars(p.as_slice(), 0, p.len());
    assert(q@ =~= p@);
    push_str(&mut q, "    ");
    q
}

fn terms_join_exec(v: &Vec<Vec<char>>, ns: &Namespaces) -> (r: Result<Vec<char>, Vec<char>>)
    ensures
        rs(r) == terms_join(texts_of(v@), v.len() as int, ns@),
{
    let ghost tv = texts_of(v@);
    let mut out: Vec<char> = Vec::new();
    let mut k: usize = 0;
    while k < v.len()
        invariant
            tv == texts_of(v@),
            tv.len() == v.len(),
            0 <= k <= v.len(),
            terms_join(tv, k as int, ns@) == Ok::<Seq<char>, Seq<char>>(out@),
        decreases v.len() - k,
    {
        let x = match term_exec(v[k].as_slice(), ns) {
            Err(e) => {
                assert(terms_join(tv, k + 1, ns@) == Err::<Seq<char>, Seq<char>>(e@));
                proof {
                    lemma_terms_join_err(tv, k + 1, v.len() as int, ns@);
                }
                return Err(e);
            },
            Ok(x) => x,
        };
        if k > 0 {
            push_str(&mut out, " ");
        }
        push_all(&mut out, x.as_slice());
        k += 1;
    }
    Ok(out)
}

fn ce_list_exec(
    v: &Vec<ClassExpression>,
    ns: &Namespaces,
    p: &Vec<char>,
    Ghost(indent): Ghost<nat>,
    Ghost(parent): Ghost<ClassExpression>,
) -> (r: Result<Vec<char>, Vec<char>>)
    requires
        p@ == pad(indent),
        decreases_to!(parent => v),
    ensures
        rs(r) == ce_join(exprs_v(v@), v.len() as int, ns@, indent),
        exprs_v(v@).len() == v.len(),
    decreases parent, 1int,
{
    let ghost ev = exprs_v(v@);
    proof {
        lemma_exprs_index(v@);
    }
    let mut out: Vec<char> = Vec::new();
    let mut k: usize = 0;
    while k < v.len()
        invariant
            ev == exprs_v(v@),
            ev.len() == v.len(),
            forall|j: int| 0 <= j < v.len() ==> #[trigger] ev[j] == crate::mexpr::expr_v(v@[j]),
            decreases_to!(parent => v),
            p@ == pad(indent),
            0 <= k <= v.len(),
            ce_join(ev, k as int, ns@, indent) == Ok::<Seq<char>, Seq<char>>(out@),
        decreases v.len() - k,
    {
        assert(ev[k as int] == v@[k as int]@);
        proof {
            assert(decreases_to!(v => v[k as int]));
        }
        let x = match ce_exec(&v[k], ns, p, Ghost(indent)) {
            Err(e) => {
                assert(ce_join(ev, k + 1, ns@, indent) == Err::<Seq<char>, Seq<char>>(e@));
                proof {
                    lemma_ce_join_err(ev, k + 1, v.len() as int, ns@, indent);
                }
                return Err(e);
            },
            Ok(x) => x,
        };
        if k > 0 {
            push_str(&mut out, " ");
        }
        push_all(&mut out, x.as_slice());
        k += 1;
    }
    Ok(out)
}

/// Object restrictions: some, only and the qualified cardinalities.
fn ce_object_restriction(
    e: &ClassExpression,
    ns: &Namespaces,
    p: &Vec<char>,
    Ghost(indent): Ghost<nat>,
) -> (r: Result<Vec<char>, Vec<char>>)
    requires
        p@ == pad(indent),
        e is ObjectSomeValuesFrom || e is ObjectAllValuesFrom || e is ObjectMinCardinality
            || e is ObjectMaxCardinality || e is ObjectExactCardinality,
    ensures
        rs(r) == ce_turtle(e@, ns@, indent),
    decreases e, 1int,
{
    let q = deeper(p, Ghost(indent));
    match e {
        ClassExpression::ObjectSomeValuesFrom { ope, bce } => {
            let pr = match term_exec(ope.as_slice(), ns) {
                Err(x) => {
                    return Err(x);
                },
                Ok(x) => x,
            };
            let f = match ce_exec(bce, ns, &q, Ghost(indent + 1)) {
                Err(x) => {
                    return Err(x);
                },
                Ok(x) => x,
            };
            Ok(restriction_block_exec(p, &q, &pr, "owl:someValuesFrom", &f))
        },
        ClassExpression::ObjectAllValuesFrom { ope, bce } => {
            let pr = match term_exec(ope.as_slice(), ns) {
                Err(x) => {
                    return Err(x);
                },
                Ok(x) => x,
            };
            let f = match ce_exec(bce, ns, &q, Ghost(indent + 1)) {
                Err(x) => {
                    return Err(x);
                },
                Ok(x) => x,
            };
            Ok(restriction_block_exec(p, &q, &pr, "owl:allValuesFrom", &f))
        },
        ClassExpression::ObjectMinCardinality { n, ope, bce } => {
            let pr = match term_exec(ope.as_slice(), ns) {
                Err(x) => {
                    return Err(x);
                },
                Ok(x) => x,
            };
            let f = match ce_exec(bce, ns, &q, Ghost(indent + 1)) {
                Err(x) => {
                    return Err(x);
                },
                Ok(x) => x,
            };
            Ok(card_block_exec(p, &q, &pr, "owl:minQualifiedCardinality", *n, "owl:onClass", &f))
        },
        ClassExpression::ObjectMaxCardinality { n, ope, bce } => {
            let pr = match term_exec(ope.as_slice(), ns) {
                Err(x) => {
                    return Err(x);
                },
                Ok(x) => x,
            };
            let f = match ce_exec(bce, ns, &q, Ghost(indent + 1)) {
                Err(x) => {
                    return Err(x);
                },
                Ok(x) => x,
            };
            Ok(card_block_exec(p, &q, &pr, "owl:maxQualifiedCardinality", *n, "owl:onClass", &f))
        },
        ClassExpression::ObjectExactCardinality { n, ope, bce } => {
            let pr = match term_exec(ope.as_slice(), ns) {
                Err(x) => {
                    return Err(x);
                },
                Ok(x) => x,
            };
            let f = match ce_exec(bce, ns, &q, Ghost(indent + 1)) {
                Err(x) => {
                    return Err(x);
                },
                Ok(x) => x,
            };
            Ok(card_block_exec(p, &q, &pr, "owl:qualifiedCardinality", *n, "owl:onClass", &f))
        },
        _ => Err(Vec::new()),
    }
}

/// Data restrictions.
fn ce_data_restriction(
    e: &ClassExpression,
    ns: &Namespaces,
    p: &Vec<char>,
    Ghost(indent): Ghost<nat>,
) -> (r: Result<Vec<char>, Vec<char>>)
    requires
        p@ == pad(indent),
        e is DataSomeValuesFrom || e is DataAllValuesFrom || e is DataHasValue
            || e is DataMinCardinality || e is DataMaxCardinality || e is DataExactCardinality,
    ensures
        rs(r) == ce_turtle(e@, ns@, indent),
{
    let q = deeper(p, Ghost(indent));
    match e {
        ClassExpression::DataSomeValuesFrom { dp, dr } => {
            let pr = match term_exec(dp.as_slice(), ns) {
                Err(x) => {
                    return Err(x);
                },
                Ok(x) => x,
            };
            let rt = match dr_turtle_exec(dr, ns) {
                Err(x) => {
                    return Err(x);
                },
                Ok(x) => x,
            };
            Ok(restriction_block_exec(p, &q, &pr, "owl:someValuesFrom", &rt))
        },
        ClassExpression::DataAllValuesFrom { dp, dr } => {
            let pr = match term_exec(dp.as_slice(), ns) {
                Err(x) => {
                    return Err(x);
                },
                Ok(x) => x,
            };
            let rt = match dr_turtle_exec(dr, ns) {
                Err(x) => {
                    return Err(x);
                },
                Ok(x) => x,
            };
            Ok(restriction_block_exec(p, &q, &pr, "owl:allValuesFrom", &rt))
        },
        ClassExpression::DataHasValue { dp, l } => {
            let pr = match term_exec(dp.as_slice(), ns) {
                Err(x) => {
                    return Err(x);
                },
                Ok(x) => x,
            };
            Ok(restriction_block_exec(p, &q, &pr, "owl:hasValue", &quoted_exec(l.as_slice())))
        },
        ClassExpression::DataMinCardinality { n, dp, dr } => {
            let pr = match term_exec(dp.as_slice(), ns) {
                Err(x) => {
                    return Err(x);
                },
                Ok(x) => x,
            };
            let rt = match dr_turtle_exec(dr, ns) {
                Err(x) => {
                    return Err(x);
                },
                Ok(x) => x,
            };
            Ok(card_block_exec(p, &q, &pr, "owl:minQualifiedCardinality", *n, "owl:onDataRange", &rt))
        },
        ClassExpression::DataMaxCardinality { n, dp, dr } => {
            let pr = match term_exec(dp.as_slice(), ns) {
                Err(x) => {
                    return Err(x);
                },
                Ok(x) => x,
            };
            let rt = match dr_turtle_exec(dr, ns) {
                Err(x) => {
                    return Err(x);
                },
                Ok(x) => x,
            };
            Ok(card_block_exec(p, &q, &pr, "owl:maxQualifiedCardinality", *n, "owl:onDataRange", &rt))
        },
        ClassExpression::DataExactCardinality { n, dp, dr } => {
            let pr = match term_exec(dp.as_slice(), ns) {
                Err(x) => {
                    return Err(x);
                },
                Ok(x) => x,
            };
            let rt = match dr_turtle_exec(dr, ns) {
                Err(x) => {
                    return Err(x);
                },
                Ok(x) => x,
            };
            Ok(card_block_exec(p, &q, &pr, "owl:qualifiedCardinality", *n, "owl:onDataRange", &rt))
        },
        _ => Err(Vec::new()),
    }
}

/// Named classes, individual restrictions and enumerations.
fn ce_leaf(e: &ClassExpression, ns: &Namespaces, p: &Vec<char>, Ghost(indent): Ghost<nat>) -> (r: Result<Vec<char>, Vec<char>>)
    requires
        p@ == pad(indent),
        e is Class || e is ObjectHasValue || e is ObjectHasSelf || e is ObjectOneOf,
    ensures
        rs(r) == ce_turtle(e@, ns@, indent),
{
    let q = deeper(p, Ghost(indent));
    match e {
        ClassExpression::Class(c) => term_exec(c.as_slice(), ns),
        ClassExpression::ObjectHasValue { ope, i } => {
            let pr = match term_exec(ope.as_slice(), ns) {
                Err(x) => {
                    return Err(x);
                },
                Ok(x) => x,
            };
            let it = match term_exec(i.as_slice(), ns) {
                Err(x) => {
                    return Err(x);
                },
                Ok(x) => x,
            };
            Ok(restriction_block_exec(p, &q, &pr, "owl:hasValue", &it))
        },
        ClassExpression::ObjectHasSelf(ope) => {
            let pr = match term_exec(ope.as_slice(), ns) {
                Err(x) => {
                    return Err(x);
                },
                Ok(x) => x,
            };
            let t = chars_of("true");
            Ok(restriction_block_exec(p, &q, &pr, "owl:hasSelf", &t))
        },
        ClassExpression::ObjectOneOf(inds) => {
            let l = match terms_join_exec(inds, ns) {
                Err(x) => {
                    return Err(x);
                },
                Ok(x) => x,
            };
            let mut v = chars_of("( ");
            push_all(&mut v, l.as_slice());
            push_str(&mut v, " )");
            Ok(class_block_exec(p, &q, "owl:oneOf", &v))
        },
        _ => Err(Vec::new()),
    }
}

fn ce_exec(e: &ClassExpression, ns: &Namespaces, p: &Vec<char>, Ghost(indent): Ghost<nat>) -> (r: Result<Vec<char>, Vec<char>>)
    requires
        p@ == pad(indent),
    ensures
        rs(r) == ce_turtle(e@, ns@, indent),
    decreases e, 2int,
{
    match e {
        ClassExpression::ObjectIntersectionOf(v) => {
            proof {
                lemma_exprs_index(v@);
            }
            if v.len() == 1 {
                assert(decreases_to!(v => v[0]));
                return ce_exec(&v[0], ns, p, Ghost(indent));
            }
            if v.len() == 0 {
                return Err(chars_of("empty intersection expression"));
            }
            let q = deeper(p, Ghost(indent));
            let q2 = deeper(&q, Ghost(indent + 1));
            let l = match ce_list_exec(v, ns, &q2, Ghost(indent + 2), Ghost(*e)) {
                Err(x) => {
                    return Err(x);
                },
                Ok(x) => x,
            };
            let mut val = chars_of("( ");
            push_all(&mut val, l.as_slice());
            push_str(&mut val, " )");
            Ok(class_block_exec(p, &q, "owl:intersectionOf", &val))
        },
        ClassExpression::ObjectUnionOf(v) => {
            proof {
                lemma_exprs_index(v@);
            }
            if v.len() == 1 {
                assert(decreases_to!(v => v[0]));
                return ce_exec(&v[0], ns, p, Ghost(indent));
            }
            if v.len() == 0 {
                return Err(chars_of("empty union expression"));
            }
            let q = deeper(p, Ghost(indent));
            let q2 = deeper(&q, Ghost(indent + 1));
            let l = match ce_list_exec(v, ns, &q2, Ghost(indent + 2), Ghost(*e)) {
                Err(x) => {
                    return Err(x);
                },
                Ok(x) => x,
            };
            let mut val = chars_of("( ");
            push_all(&mut val, l.as_slice());
            push_str(&mut val, " )");
            Ok(class_block_exec(p, &q, "owl:unionOf", &val))
        },
        ClassExpression::ObjectComplementOf(b) => {
            let q = deeper(p, Ghost(indent));
            let c = match ce_exec(b, ns, &q, Ghost(indent + 1)) {
                Err(x) => {
                    return Err(x);
                },
                Ok(x) => x,
            };
            Ok(class_block_exec(p, &q, "owl:complementOf", &c))
        },
        ClassExpression::Class(_) | ClassExpression::ObjectHasValue { .. }
        | ClassExpression::ObjectHasSelf(_) | ClassExpression::ObjectOneOf(_) => ce_leaf(
            e,
            ns,
            p,
            Ghost(indent),
        ),
        ClassExpression::ObjectSomeValuesFrom { .. } | ClassExpression::ObjectAllValuesFrom { .. }
        | ClassExpression::ObjectMinCardinality { .. } | ClassExpression::ObjectMaxCardinality { .. }
        | ClassExpression::ObjectExactCardinality { .. } => ce_object_restriction(
            e,
            ns,
            p,
            Ghost(indent),
        ),
        _ => ce_data_restriction(e, ns, p, Ghost(indent)),
    }
}

/// An error about an expression, carrying the detail text `d`.
pub open spec fn expression_error(r: Result<Vec<char>, OwlError>, d: Seq<char>) -> bool {
    r matches Err(e) && err_of(e) == (ErrKind::ManchesterInvalid, d)
}

/// `class_expression_to_turtle_value`: the Turtle value written for a class expression whose
/// closing bracket is indented by `indent` levels of four blanks.
pub(crate) fn turtle_value_chars(expr: &ClassExpression, ns: &Namespaces, indent: usize) -> (r: Result<Vec<char>, OwlError>)
    ensures
        match ce_turtle(expr@, ns@, indent as nat) {
            Ok(t) => r matches Ok(v) && v@ == t,
            Err(d) => expression_error(r, d),
        },
{
    let mut p: Vec<char> = Vec::new();
    let mut k: usize = 0;
    while k < indent
        invariant
            0 <= k <= indent,
            p@ == pad(k as nat),
        decreases indent - k,
    {
        push_str(&mut p, "    ");
        k += 1;
    }
    match ce_exec(expr, ns, &p, Ghost(indent as nat)) {
        Ok(v) => Ok(v),
        Err(m) => Err(crate::error::make_err(ErrKind::ManchesterInvalid, m.as_slice())),
    }
}

/// `class_expression_to_turtle_fragment`: the line `    predicate value ;` for a class
/// expression.
pub open spec fn fragment_of(value: Seq<char>, predicate: Seq<char>) -> Seq<char> {
    "    "@ + predicate + " "@ + value + " ;\n"@
}

pub(crate) fn turtle_fragment_chars(expr: &ClassExpression, predicate: &str, ns: &Namespaces) -> (r: Result<Vec<char>, OwlError>)
    ensures
        match ce_turtle(expr@, ns@, 0) {
            Ok(t) => r matches Ok(v) && v@ == fragment_of(t, predicate@),
            Err(d) => expression_error(r, d),
        },
{
    let value = match turtle_value_chars(expr, ns, 0) {
        Err(e) => {
            return Err(e);
        },
        Ok(v) => v,
    };
    let mut out = chars_of("    ");
    push_str(&mut out, predicate);
    push_str(&mut out, " ");
    push_all(&mut out, value.as_slice());
    push_str(&mut out, " ;\n");
    Ok(out)
}


/// `class_expression_to_turtle_value`: the Turtle value written for a class expression whose
/// closing bracket is indented by `indent` levels of four blanks.
pub fn class_expression_to_turtle_value(expr: &ClassExpression, ns: &Namespaces, indent: usize) -> (r: Result<
    String,
    OwlError,
>)
    ensures
        match ce_turtle(expr@, ns@, indent as nat) {
            Ok(t) => r matches Ok(v) && v@ == t,
            Err(d) => r matches Err(e) && err_of(e) == (ErrKind::ManchesterInvalid, d),
        },
{
    match turtle_value_chars(expr, ns, indent) {
        Ok(v) => Ok(crate::text::string_from(v.as_slice())),
        Err(e) => Err(e),
    }
}

/// `class_expression_to_turtle_fragment`: the line `    predicate value ;` for a class
/// expression.
pub fn class_expression_to_turtle_fragment(expr: &ClassExpression, predicate: &str, ns: &Namespaces) -> (r:
    Result<String, OwlError>)
    ensures
        match ce_turtle(expr@, ns@, 0) {
            Ok(t) => r matches Ok(v) && v@ == fragment_of(t, predicate@),
            Err(d) => r matches Err(e) && err_of(e) == (ErrKind::ManchesterInvalid, d),
        },
{
    match turtle_fragment_chars(expr, predicate, ns) {
        Ok(v) => Ok(crate::text::string_from(v.as_slice())),
        Err(e) => Err(e),
    }
}

/// `data_range_to_turtle_term`: the Turtle term of a data range (used for datatype
/// definitions); a name that cannot be written is an invalid-expression error with the detail.
pub fn data_range_to_turtle_term(dr: &DataRange, ns: &Namespaces) -> (r: Result<String, OwlError>)
    ensures
        match dr_turtle(dr@, ns@) {
            Ok(t) => r matches Ok(v) && v@ == t,
            Err(d) => r matches Err(e) && err_of(e) == (ErrKind::ManchesterInvalid, d),
        },
{
    match dr_turtle_exec(dr, ns) {
        Ok(v) => Ok(crate::text::string_from(v.as_slice())),
        Err(d) => Err(crate::error::make_err(ErrKind::ManchesterInvalid, d.as_slice())),
    }
}

/// Law: over the same operands (at least two), the Turtle value of a union and that of an
/// intersection either both fail or both succeed, and then they are the same blank node text
/// except for the list predicate: `owl:unionOf` for the union, `owl:intersectionOf` for the
/// intersection. So a union is never written as an intersection.
pub proof fn law_turtle_union_versus_intersection(v: Seq<ExprV>, ns: Seq<(Seq<char>, Seq<char>)>, indent: nat)
    requires
        v.len() > 1,
    ensures
        ce_turtle(ExprV::ObjectUnionOf(v), ns, indent) is Ok <==> ce_turtle(ExprV::ObjectIntersectionOf(v), ns, indent) is Ok,
        ce_turtle(ExprV::ObjectUnionOf(v), ns, indent) is Ok ==> exists|pre: Seq<char>, rest: Seq<char>|
            #![trigger pre + "owl:unionOf"@ + rest]
            ce_turtle(ExprV::ObjectUnionOf(v), ns, indent)->Ok_0 == pre + "owl:unionOf"@ + rest && ce_turtle(
                ExprV::ObjectIntersectionOf(v),
                ns,
                indent,
            )->Ok_0 == pre + "owl:intersectionOf"@ + rest,
        ce_turtle(ExprV::ObjectUnionOf(v), ns, indent) is Ok ==> ce_turtle(ExprV::ObjectUnionOf(v), ns, indent)->Ok_0
            != ce_turtle(ExprV::ObjectIntersectionOf(v), ns, indent)->Ok_0,
{
    let p = pad(indent);
    let q = pad(indent + 1);
    match ce_join(v, v.len() as int, ns, indent + 2) {
        Err(_) => {},
        Ok(l) => {
            let pre = "[\n"@ + q + "a owl:Class ;\n"@ + q;
            let rest = " "@ + ("( "@ + l + " )"@) + "\n"@ + p + "]"@;
            let u = ce_turtle(ExprV::ObjectUnionOf(v), ns, indent)->Ok_0;
            let i = ce_turtle(ExprV::ObjectIntersectionOf(v), ns, indent)->Ok_0;
            assert(u =~= pre + "owl:unionOf"@ + rest);
            assert(i =~= pre + "owl:intersectionOf"@ + rest);
            reveal_strlit("owl:unionOf");
            reveal_strlit("owl:intersectionOf");
            assert(u.len() != i.len());
        },
    }
}

/// The OWL predicate that states what kind of class expression a blank node is: the list
/// predicate of an intersection or union of several operands, the restriction predicate of a
/// restriction, `owl:complementOf` and `owl:oneOf`.
pub open spec fn turtle_key(e: ExprV) -> Option<Seq<char>> {
    match e {
        ExprV::ObjectIntersectionOf(v) => if v.len() > 1 {
            Some("owl:intersectionOf"@)
        } else {
            None
        },
        ExprV::ObjectUnionOf(v) => if v.len() > 1 {
            Some("owl:unionOf"@)
        } else {
            None
        },
        ExprV::ObjectSomeValuesFrom { .. } => Some("owl:someValuesFrom"@),
        ExprV::ObjectAllValuesFrom { .. } => Some("owl:allValuesFrom"@),
        ExprV::ObjectMinCardinality { .. } => Some("owl:minQualifiedCardinality"@),
        ExprV::ObjectMaxCardinality { .. } => Some("owl:maxQualifiedCardinality"@),
        ExprV::ObjectExactCardinality { .. } => Some("owl:qualifiedCardinality"@),
        ExprV::ObjectComplementOf(_) => Some("owl:complementOf"@),
        ExprV::ObjectHasValue { .. } => Some("owl:hasValue"@),
        ExprV::ObjectHasSelf(_) => Some("owl:hasSelf"@),
        ExprV::ObjectOneOf(_) => Some("owl:oneOf"@),
        ExprV::DataSomeValuesFrom { .. } => Some("owl:someValuesFrom"@),
        ExprV::DataAllValuesFrom { .. } => Some("owl:allValuesFrom"@),
        ExprV::DataHasValue { .. } => Some("owl:hasValue"@),
        ExprV::DataMinCardinality { .. } => Some("owl:minQualifiedCardinality"@),
        ExprV::DataMaxCardinality { .. } => Some("owl:maxQualifiedCardinality"@),
        ExprV::DataExactCardinality { .. } => Some("owl:qualifiedCardinality"@),
        _ => None,
    }
}

proof fn lemma_contains_mid(a: Seq<char>, x: Seq<char>, b: Seq<char>)
    ensures
        crate::text::contains(a + x + b, x),
{
    assert((a + x + b).subrange(a.len() as int, (a.len() + x.len()) as int) =~= x);
    assert(crate::text::occurs_at(a + x + b, a.len() as int, x));
}

#[verifier::spinoff_prover]
#[verifier::rlimit(50)]
proof fn lemma_block_keys(p: Seq<char>, q: Seq<char>, prop: Seq<char>, key: Seq<char>, value: Seq<char>, n: u32, k2: Seq<char>)
    ensures
        crate::text::contains(restriction_block(p, q, prop, key, value), "\n"@ + q + key + " "@),
        crate::text::contains(class_block(p, q, key, value), "\n"@ + q + key + " "@),
        crate::text::contains(card_block(p, q, prop, key, n, k2, value), "\n"@ + q + key + " "@),
{
    reveal_strlit("\n");
    reveal_strlit(" ;\n");
    reveal_strlit("a owl:Restriction ;\n");
    reveal_strlit("a owl:Class ;\n");
    reveal_strlit(" \"");
    reveal_strlit(" ;");
    reveal_strlit("\"");
    reveal_strlit("a owl:Class ;");
    reveal_strlit("a owl:Restriction ;");
    reveal_strlit(" ");
    let mid = "\n"@ + q + key + " "@;
    let r = restriction_block(p, q, prop, key, value);
    let ra = "[\n"@ + q + "a owl:Restriction ;\n"@ + q + "owl:onProperty "@ + prop + " ;"@;
    assert(r =~= ra + mid + (value + "\n"@ + p + "]"@));
    lemma_contains_mid(ra, mid, value + "\n"@ + p + "]"@);
    let c = class_block(p, q, key, value);
    let ca = "[\n"@ + q + "a owl:Class ;"@;
    assert(c =~= ca + mid + (value + "\n"@ + p + "]"@));
    lemma_contains_mid(ca, mid, value + "\n"@ + p + "]"@);
    let d = card_block(p, q, prop, key, n, k2, value);
    let db = "\""@ + decimal(n as nat) + "\"^^<http://www.w3.org/2001/XMLSchema#nonNegativeInteger> ;\n"@ + q + k2 + " "@
        + value + "\n"@ + p + "]"@;
    assert(d =~= ra + mid + db);
    lemma_contains_mid(ra, mid, db);
}

/// Law: the Turtle value of a class expression that is a blank node states its kind with its
/// own OWL predicate (`turtle_key`) on a line of the node's own indentation; so, for example,
/// a union of several classes is written with `owl:unionOf`, a universal restriction with
/// `owl:allValuesFrom` and a minimum cardinality with `owl:minQualifiedCardinality`.
#[verifier::spinoff_prover]
#[verifier::rlimit(50)]
pub proof fn law_turtle_kind_predicate(e: ExprV, ns: Seq<(Seq<char>, Seq<char>)>, indent: nat)
    requires
        turtle_key(e) is Some,
    ensures
        ce_turtle(e, ns, indent) is Ok ==> crate::text::contains(
            ce_turtle(e, ns, indent)->Ok_0,
            "\n"@ + pad(indent + 1) + turtle_key(e)->Some_0 + " "@,
        ),
{
    let p = pad(indent);
    let q = pad(indent + 1);
    let key = turtle_key(e)->Some_0;
    if ce_turtle(e, ns, indent) is Ok {
        let x = ce_turtle(e, ns, indent)->Ok_0;
        match e {
            ExprV::ObjectIntersectionOf(v) => {
                let l = ce_join(v, v.len() as int, ns, indent + 2)->Ok_0;
                lemma_block_keys(p, q, Seq::empty(), key, "( "@ + l + " )"@, 0, Seq::empty());
            },
            ExprV::ObjectUnionOf(v) => {
                let l = ce_join(v, v.len() as int, ns, indent + 2)->Ok_0;
                lemma_block_keys(p, q, Seq::empty(), key, "( "@ + l + " )"@, 0, Seq::empty());
            },
            ExprV::ObjectSomeValuesFrom { ope, bce } => {
                lemma_block_keys(p, q, term_m(ope, ns)->Ok_0, key, ce_turtle(*bce, ns, indent + 1)->Ok_0, 0, Seq::empty());
            },
            ExprV::ObjectAllValuesFrom { ope, bce } => {
                lemma_block_keys(p, q, term_m(ope, ns)->Ok_0, key, ce_turtle(*bce, ns, indent + 1)->Ok_0, 0, Seq::empty());
            },
            ExprV::ObjectMinCardinality { n, ope, bce } => {
                lemma_block_keys(p, q, term_m(ope, ns)->Ok_0, key, ce_turtle(*bce, ns, indent + 1)->Ok_0, n, "owl:onClass"@);
            },
            ExprV::ObjectMaxCardinality { n, ope, bce } => {
                lemma_block_keys(p, q, term_m(ope, ns)->Ok_0, key, ce_turtle(*bce, ns, indent + 1)->Ok_0, n, "owl:onClass"@);
            },
            ExprV::ObjectExactCardinality { n, ope, bce } => {
                lemma_block_keys(p, q, term_m(ope, ns)->Ok_0, key, ce_turtle(*bce, ns, indent + 1)->Ok_0, n, "owl:onClass"@);
            },
            ExprV::ObjectComplementOf(b) => {
                lemma_block_keys(p, q, Seq::empty(), key, ce_turtle(*b, ns, indent + 1)->Ok_0, 0, Seq::empty());
            },
            ExprV::ObjectHasValue { ope, i } => {
                lemma_block_keys(p, q, term_m(ope, ns)->Ok_0, key, term_m(i, ns)->Ok_0, 0, Seq::empty());
            },
            ExprV::ObjectHasSelf(ope) => {
                lemma_block_keys(p, q, term_m(ope, ns)->Ok_0, key, "true"@, 0, Seq::empty());
            },
            ExprV::ObjectOneOf(inds) => {
                let l = terms_join(inds, inds.len() as int, ns)->Ok_0;
                lemma_block_keys(p, q, Seq::empty(), key, "( "@ + l + " )"@, 0, Seq::empty());
            },
            ExprV::DataSomeValuesFrom { dp, dr } => {
                lemma_block_keys(p, q, term_m(dp, ns)->Ok_0, key, dr_turtle(dr, ns)->Ok_0, 0, Seq::empty());
            },
            ExprV::DataAllValuesFrom { dp, dr } => {
                lemma_block_keys(p, q, term_m(dp, ns)->Ok_0, key, dr_turtle(dr, ns)->Ok_0, 0, Seq::empty());
            },
            ExprV::DataHasValue { dp, l } => {
                lemma_block_keys(p, q, term_m(dp, ns)->Ok_0, key, quoted(l), 0, Seq::empty());
            },
            ExprV::DataMinCardinality { n, dp, dr } => {
                lemma_block_keys(p, q, term_m(dp, ns)->Ok_0, key, dr_turtle(dr, ns)->Ok_0, n, "owl:onDataRange"@);
            },
            ExprV::DataMaxCardinality { n, dp, dr } => {
                lemma_block_keys(p, q, term_m(dp, ns)->Ok_0, key, dr_turtle(dr, ns)->Ok_0, n, "owl:onDataRange"@);
            },
            ExprV::DataExactCardinality { n, dp, dr } => {
                lemma_block_keys(p, q, term_m(dp, ns)->Ok_0, key, dr_turtle(dr, ns)->Ok_0, n, "owl:onDataRange"@);
            },
            _ => {},
        }
    }
}

} // verus!
