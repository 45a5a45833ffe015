//! OWL class expressions and data ranges, and the resolution of the names written in them.
use vstd::prelude::*;
use crate::namespaces::{lookup, Namespaces};
use crate::text::{chars_of, ends_with, push_all, push_str, seq_eq, slice_chars, starts_with, ends_with_exec, starts_with_exec, next_char, next_char_exec, lemma_next_char_bounds};

verus! {

/// Constraining facets of a datatype restriction.
#[derive(Debug, Clone, Copy, PartialEq, Eq, Structural)]
pub enum Facet {
    MinInclusive,
    MaxInclusive,
    MinExclusive,
    MaxExclusive,
    Length,
    MinLength,
    MaxLength,
    Pattern,
    TotalDigits,
    FractionDigits,
}

/// A data range; literals are kept as their lexical form.
#[derive(Debug)]
pub enum DataRange {
    Datatype(Vec<char>),
    DatatypeRestriction(Vec<char>, Vec<(Facet, Vec<char>)>),
    DataOneOf(Vec<Vec<char>>),
    DataComplementOf(Box<DataRange>),
    DataIntersectionOf(Vec<DataRange>),
    DataUnionOf(Vec<DataRange>),
}

/// A data range as mathematical values.
pub enum RangeV {
    Datatype(Seq<char>),
    DatatypeRestriction(Seq<char>, Seq<(Facet, Seq<char>)>),
    DataOneOf(Seq<Seq<char>>),
    DataComplementOf(Box<RangeV>),
    DataIntersectionOf(Seq<RangeV>),
    DataUnionOf(Seq<RangeV>),
}

/// An OWL class expression over full IRIs; literals are kept as their lexical form. An object
/// property expression (`ope`) is held as the text every renderer reads: the property's IRI,
/// or `inverse ` followed by it for an inverse property.
#[derive(Debug)]
pub enum ClassExpression {
    Class(Vec<char>),
    ObjectIntersectionOf(Vec<ClassExpression>),
    ObjectUnionOf(Vec<ClassExpression>),
    ObjectSomeValuesFrom { ope: Vec<char>, bce: Box<ClassExpression> },
    ObjectAllValuesFrom { ope: Vec<char>, bce: Box<ClassExpression> },
    ObjectMinCardinality { n: u32, ope: Vec<char>, bce: Box<ClassExpression> },
    ObjectMaxCardinality { n: u32, ope: Vec<char>, bce: Box<ClassExpression> },
    ObjectExactCardinality { n: u32, ope: Vec<char>, bce: Box<ClassExpression> },
    ObjectComplementOf(Box<ClassExpression>),
    ObjectHasValue { ope: Vec<char>, i: Vec<char> },
    ObjectHasSelf(Vec<char>),
    ObjectOneOf(Vec<Vec<char>>),
    DataSomeValuesFrom { dp: Vec<char>, dr: DataRange },
    DataAllValuesFrom { dp: Vec<char>, dr: DataRange },
    DataHasValue { dp: Vec<char>, l: Vec<char> },
    DataMinCardinality { n: u32, dp: Vec<char>, dr: DataRange },
    DataMaxCardinality { n: u32, dp: Vec<char>, dr: DataRange },
    DataExactCardinality { n: u32, dp: Vec<char>, dr: DataRange },
}

/// A class expression as mathematical values.
pub enum ExprV {
    Class(Seq<char>),
    ObjectIntersectionOf(Seq<ExprV>),
    ObjectUnionOf(Seq<ExprV>),
    ObjectSomeValuesFrom { ope: Seq<char>, bce: Box<ExprV> },
    ObjectAllValuesFrom { ope: Seq<char>, bce: Box<ExprV> },
    ObjectMinCardinality { n: u32, ope: Seq<char>, bce: Box<ExprV> },
    ObjectMaxCardinality { n: u32, ope: Seq<char>, bce: Box<ExprV> },
    ObjectExactCardinality { n: u32, ope: Seq<char>, bce: Box<ExprV> },
    ObjectComplementOf(Box<ExprV>),
    ObjectHasValue { ope: Seq<char>, i: Seq<char> },
    ObjectHasSelf(Seq<char>),
    ObjectOneOf(Seq<Seq<char>>),
    DataSomeValuesFrom { dp: Seq<char>, dr: RangeV },
    DataAllValuesFrom { dp: Seq<char>, dr: RangeV },
    DataHasValue { dp: Seq<char>, l: Seq<char> },
    DataMinCardinality { n: u32, dp: Seq<char>, dr: RangeV },
    DataMaxCardinality { n: u32, dp: Seq<char>, dr: RangeV },
    DataExactCardinality { n: u32, dp: Seq<char>, dr: RangeV },
}

/// Character vectors as texts.
pub open spec fn texts_of(v: Seq<Vec<char>>) -> Seq<Seq<char>> {
    v.map_values(|x: Vec<char>| x@)
}

/// Facet restrictions as mathematical values.
pub open spec fn facets_v(v: Seq<(Facet, Vec<char>)>) -> Seq<(Facet, Seq<char>)> {
    v.map_values(|x: (Facet, Vec<char>)| (x.0, x.1@))
}

pub open spec fn range_v(d: DataRange) -> RangeV
    decreases d,
{
    match d {
        DataRange::Datatype(s) => RangeV::Datatype(s@),
        DataRange::DatatypeRestriction(s, f) => RangeV::DatatypeRestriction(s@, facets_v(f@)),
        DataRange::DataOneOf(v) => RangeV::DataOneOf(texts_of(v@)),
        DataRange::DataComplementOf(b) => RangeV::DataComplementOf(Box::new(range_v(*b))),
        DataRange::DataIntersectionOf(v) => RangeV::DataIntersectionOf(ranges_v(v@)),
        DataRange::DataUnionOf(v) => RangeV::DataUnionOf(ranges_v(v@)),
    }
}

pub open spec fn ranges_v(s: Seq<DataRange>) -> Seq<RangeV>
    decreases s,
{
    if s.len() == 0 {
        Seq::empty()
    } else {
        ranges_v(s.subrange(0, s.len() - 1)).push(range_v(s[s.len() - 1]))
    }
}

impl View for DataRange {
    type V = RangeV;

    open spec fn view(&self) -> RangeV {
        range_v(*self)
    }
}

pub open spec fn expr_v(e: ClassExpression) -> ExprV
    decreases e,
{
    match e {
        ClassExpression::Class(s) => ExprV::Class(s@),
        ClassExpression::ObjectIntersectionOf(v) => ExprV::ObjectIntersectionOf(exprs_v(v@)),
        ClassExpression::ObjectUnionOf(v) => ExprV::ObjectUnionOf(exprs_v(v@)),
        ClassExpression::ObjectSomeValuesFrom { ope, bce } => ExprV::ObjectSomeValuesFrom {
            ope: ope@,
            bce: Box::new(expr_v(*bce)),
        },
        ClassExpression::ObjectAllValuesFrom { ope, bce } => ExprV::ObjectAllValuesFrom {
            ope: ope@,
            bce: Box::new(expr_v(*bce)),
        },
        ClassExpression::ObjectMinCardinality { n, ope, bce } => ExprV::ObjectMinCardinality {
            n,
            ope: ope@,
            bce: Box::new(expr_v(*bce)),
        },
        ClassExpression::ObjectMaxCardinality { n, ope, bce } => ExprV::ObjectMaxCardinality {
            n,
            ope: ope@,
            bce: Box::new(expr_v(*bce)),
        },
        ClassExpression::ObjectExactCardinality { n, ope, bce } => ExprV::ObjectExactCardinality {
            n,
            ope: ope@,
            bce: Box::new(expr_v(*bce)),
        },
        ClassExpression::ObjectComplementOf(b) => ExprV::ObjectComplementOf(Box::new(expr_v(*b))),
        ClassExpression::ObjectHasValue { ope, i } => ExprV::ObjectHasValue { ope: ope@, i: i@ },
        ClassExpression::ObjectHasSelf(p) => ExprV::ObjectHasSelf(p@),
        ClassExpression::ObjectOneOf(v) => ExprV::ObjectOneOf(texts_of(v@)),
        ClassExpression::DataSomeValuesFrom { dp, dr } => ExprV::DataSomeValuesFrom {
            dp: dp@,
            dr: dr@,
        },
        ClassExpression::DataAllValuesFrom { dp, dr } => ExprV::DataAllValuesFrom {
            dp: dp@,
            dr: dr@,
        },
        ClassExpression::DataHasValue { dp, l } => ExprV::DataHasValue { dp: dp@, l: l@ },
        ClassExpression::DataMinCardinality { n, dp, dr } => ExprV::DataMinCardinality {
            n,
            dp: dp@,
            dr: dr@,
        },
        ClassExpression::DataMaxCardinality { n, dp, dr } => ExprV::DataMaxCardinality {
            n,
            dp: dp@,
            dr: dr@,
        },
        ClassExpression::DataExactCardinality { n, dp, dr } => ExprV::DataExactCardinality {
            n,
            dp: dp@,
            dr: dr@,
        },
    }
}

pub open spec fn exprs_v(s: Seq<ClassExpression>) -> Seq<ExprV>
    decreases s,
{
    if s.len() == 0 {
        Seq::empty()
    } else {
        exprs_v(s.subrange(0, s.len() - 1)).push(expr_v(s[s.len() - 1]))
    }
}

impl View for ClassExpression {
    type V = ExprV;

    open spec fn view(&self) -> ExprV {
        expr_v(*self)
    }
}

pub proof fn lemma_ranges_push(s: Seq<DataRange>, x: DataRange)
    ensures
        ranges_v(s.push(x)) == ranges_v(s).push(range_v(x)),
{
    assert(s.push(x).subrange(0, s.len() as int) =~= s);
}

pub proof fn lemma_ranges_index(s: Seq<DataRange>)
    ensures
        ranges_v(s).len() == s.len(),
        forall|i: int| 0 <= i < s.len() ==> #[trigger] ranges_v(s)[i] == range_v(s[i]),
    decreases s.len(),
{
    if s.len() > 0 {
        let t = s.subrange(0, s.len() - 1);
        lemma_ranges_index(t);
        assert forall|i: int| 0 <= i < s.len() implies #[trigger] ranges_v(s)[i] == range_v(s[i]) by {
            if i < s.len() - 1 {
                assert(t[i] == s[i]);
            }
        }
    }
}

pub proof fn lemma_exprs_push(s: Seq<ClassExpression>, x: ClassExpression)
    ensures
        exprs_v(s.push(x)) == exprs_v(s).push(expr_v(x)),
{
    assert(s.push(x).subrange(0, s.len() as int) =~= s);
}

pub proof fn lemma_exprs_index(s: Seq<ClassExpression>)
    ensures
        exprs_v(s).len() == s.len(),
        forall|i: int| 0 <= i < s.len() ==> #[trigger] exprs_v(s)[i] == expr_v(s[i]),
    decreases s.len(),
{
    if s.len() > 0 {
        let t = s.subrange(0, s.len() - 1);
        lemma_exprs_index(t);
        assert forall|i: int| 0 <= i < s.len() implies #[trigger] exprs_v(s)[i] == expr_v(s[i]) by {
            if i < s.len() - 1 {
                assert(t[i] == s[i]);
            }
        }
    }
}

/// Namespace of the `owl:` vocabulary.
pub open spec fn owl_ns() -> Seq<char> {
    "http://www.w3.org/2002/07/owl#"@
}

/// Full IRI of a name written in an expression: an absolute `http(s)` IRI as is, `<iri>`
/// unbracketed, `prefix:local` through the namespaces (with `owl:Thing` and `owl:Nothing`
/// known without a binding); otherwise the error detail.
pub open spec fn resolve_term(term: Seq<char>, ns: Seq<(Seq<char>, Seq<char>)>) -> Result<
    Seq<char>,
    Seq<char>,
> {
    if starts_with(term, "http://"@) || starts_with(term, "https://"@) {
        Ok(term)
    } else if term.len() >= 2 && term[0] == '<' && term[term.len() - 1] == '>' {
        Ok(term.subrange(1, term.len() - 1))
    } else {
        let c = next_char(term, 0, ':');
        if c >= term.len() {
            Err("bare name '"@ + term + "' is not an IRI; use prefix:local or <absolute-iri>"@)
        } else {
            let prefix = term.subrange(0, c);
            let local = term.subrange(c + 1, term.len() as int);
            match lookup(ns, prefix) {
                Some(base) => Ok(base + local),
                None => if prefix.len() == 0 {
                    Err("empty prefix in QName '"@ + term + "' (no default prefix declared)"@)
                } else if prefix == "owl"@ && (local == "Thing"@ || local == "Nothing"@) {
                    Ok(owl_ns() + local)
                } else {
                    Err("unknown prefix '"@ + prefix + "' in '"@ + term + "'"@)
                },
            }
        }
    }
}

/// `resolve_term_iri`: the full IRI of `term`, or the error detail.
pub fn resolve_term_iri(term: &[char], ns: &Namespaces) -> (r: Result<Vec<char>, Vec<char>>)
    ensures
        match r {
            Ok(v) => resolve_term(term@, ns@) == Ok::<Seq<char>, Seq<char>>(v@),
            Err(m) => resolve_term(term@, ns@) == Err::<Seq<char>, Seq<char>>(m@),
        },
{
    let http = chars_of("http://");
    let https = chars_of("https://");
    if starts_with_exec(term, http.as_slice()) || starts_with_exec(term, https.as_slice()) {
        let all = slice_chars(term, 0, term.len());
        assert(all@ =~= term@);
        return Ok(all);
    }
    if term.len() >= 2 && term[0] == '<' && term[term.len() - 1] == '>' {
        return Ok(slice_chars(term, 1, term.len() - 1));
    }
    let c = next_char_exec(term, 0, ':');
    if c >= term.len() {
        let mut m = chars_of("bare name '");
        push_all(&mut m, term);
        push_str(&mut m, "' is not an IRI; use prefix:local or <absolute-iri>");
        return Err(m);
    }
    proof {
        lemma_next_char_bounds(term@, 0, ':');
    }
    let prefix = slice_chars(term, 0, c);
    let local = slice_chars(term, c + 1, term.len());
    match ns.get_chars(prefix.as_slice()) {
        Some(base) => {
            let mut out = slice_chars(base.as_slice(), 0, base.len());
            push_all(&mut out, local.as_slice());
            assert(base@.subrange(0, base@.len() as int) =~= base@);
            Ok(out)
        },
        None => {
            let owl = chars_of("owl");
            let thing = chars_of("Thing");
            let nothing = chars_of("Nothing");
            if prefix.len() == 0 {
                let mut m = chars_of("empty prefix in QName '");
                push_all(&mut m, term);
                push_str(&mut m, "' (no default prefix declared)");
                Err(m)
            } else if seq_eq(prefix.as_slice(), owl.as_slice()) && (seq_eq(
                local.as_slice(),
                thing.as_slice(),
            ) || seq_eq(local.as_slice(), nothing.as_slice())) {
                let mut out = chars_of("http://www.w3.org/2002/07/owl#");
                push_all(&mut out, local.as_slice());
                Ok(out)
            } else {
                let mut m = chars_of("unknown prefix '");
                push_all(&mut m, prefix.as_slice());
                push_str(&mut m, "' in '");
                push_all(&mut m, term);
                push_str(&mut m, "'");
                Err(m)
            }
        },
    }
}

/// IRIs treated as datatypes when they fill a restriction: the XSD and some RDF datatypes,
/// `rdfs:Literal`, `owl:real`, `owl:rational`, anything written `xsd:...`, and the declared
/// datatypes `known`.
pub open spec fn looks_like_datatype(
    iri: Seq<char>,
    original: Seq<char>,
    known: Seq<Seq<char>>,
) -> bool {
    starts_with(iri, "http://www.w3.org/2001/XMLSchema#"@) || (starts_with(
        iri,
        "http://www.w3.org/1999/02/22-rdf-syntax-ns#"@,
    ) && (ends_with(iri, "PlainLiteral"@) || ends_with(iri, "langString"@) || ends_with(
        iri,
        "HTML"@,
    ) || ends_with(iri, "XMLLiteral"@))) || iri == "http://www.w3.org/2000/01/rdf-schema#Literal"@
        || iri == "http://www.w3.org/2002/07/owl#real"@ || iri
        == "http://www.w3.org/2002/07/owl#rational"@ || starts_with(original, "xsd:"@)
        || known.contains(iri)
}

fn has_prefix(s: &[char], p: &str) -> (r: bool)
    ensures
        r == starts_with(s@, p@),
{
    let v = chars_of(p);
    starts_with_exec(s, v.as_slice())
}

fn has_suffix(s: &[char], p: &str) -> (r: bool)
    ensures
        r == ends_with(s@, p@),
{
    let v = chars_of(p);
    ends_with_exec(s, v.as_slice())
}

fn is_text(s: &[char], p: &str) -> (r: bool)
    ensures
        r == (s@ == p@),
{
    let v = chars_of(p);
    seq_eq(s, v.as_slice())
}

/// `looks_like_datatype_iri`.
pub fn looks_like_datatype_iri(iri: &[char], original: &[char], known: &Vec<Vec<char>>) -> (r: bool)
    ensures
        r == looks_like_datatype(iri@, original@, texts_of(known@)),
{
    if has_prefix(iri, "http://www.w3.org/2001/XMLSchema#") {
        return true;
    }
    if has_prefix(iri, "http://www.w3.org/1999/02/22-rdf-syntax-ns#") && (has_suffix(
        iri,
        "PlainLiteral",
    ) || has_suffix(iri, "langString") || has_suffix(iri, "HTML") || has_suffix(
        iri,
        "XMLLiteral",
    )) {
        return true;
    }
    if is_text(iri, "http://www.w3.org/2000/01/rdf-schema#Literal") || is_text(
        iri,
        "http://www.w3.org/2002/07/owl#real",
    ) || is_text(iri, "http://www.w3.org/2002/07/owl#rational") || has_prefix(original, "xsd:") {
        return true;
    }
    let mut i: usize = 0;
    while i < known.len()
        invariant
            0 <= i <= known.len(),
            forall|k: int| 0 <= k < i ==> texts_of(known@)[k] != iri@,
        decreases known.len() - i,
    {
        if seq_eq(known[i].as_slice(), iri) {
            assert(texts_of(known@)[i as int] == iri@);
            return true;
        }
        i += 1;
    }
    false
}

} // verus!
