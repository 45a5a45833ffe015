//! Manchester text written back for class expressions and data ranges (the normalized form).
use vstd::prelude::*;
use crate::iri::{best_match, is_control, lemma_best_match_unique, owl_thing, safe_iri, safe_iri_chars};
use crate::literal::{escape_turtle, escape_turtle_string};
use crate::mexpr::{
    expr_v, exprs_v, lemma_exprs_index, lemma_ranges_index, range_v, ranges_v, texts_of,
    ClassExpression, DataRange, ExprV, Facet, RangeV,
};
use crate::namespaces::{
    best_namespace_match, chars_lt, distinct_keys, is_candidate, lemma_seq_lt_total, seq_lt,
    Namespaces,
};
use crate::text::{chars_of, decimal, decimal_exec, is_ws, push_all, push_str, seq_eq, slice_chars, starts_with, starts_with_exec, ws};

verus! {

/// The characters of `s` that are neither control characters nor whitespace.
pub open spec fn printable(s: Seq<char>) -> Seq<char>
    decreases s.len(),
{
    if s.len() == 0 {
        Seq::empty()
    } else if is_control(s.last()) || is_ws(s.last()) {
        printable(s.drop_last())
    } else {
        printable(s.drop_last()).push(s.last())
    }
}

/// `iri_to_manchester_term`: an unsafe IRI with its control and blank characters dropped; the
/// longest-namespace `prefix:local`; `<iri>` for an absolute `http(s)` IRI; else the IRI.
pub open spec fn man_term(iri: Seq<char>, ns: Seq<(Seq<char>, Seq<char>)>) -> Seq<char> {
    if !safe_iri(iri) {
        printable(iri)
    } else {
        match best_match(ns, iri) {
            Some(i) => ns[i].0 + ":"@ + iri.skip(ns[i].1.len() as int),
            None => if starts_with(iri, "http://"@) || starts_with(iri, "https://"@) {
                "<"@ + iri + ">"@
            } else {
                iri
            },
        }
    }
}

/// Entry `i` is the candidate namespace whose prefix sorts first.
pub open spec fn is_first_key(ns: Seq<(Seq<char>, Seq<char>)>, iri: Seq<char>, i: int) -> bool {
    &&& is_candidate(ns, iri, i)
    &&& forall|j: int| is_candidate(ns, iri, j) && j != i ==> seq_lt(ns[i].0, ns[j].0)
}

/// `iri_to_curie_or_full`: `prefix:rest` for the first prefix (in prefix order) whose
/// namespace starts the IRI, else `<iri>`.
pub open spec fn curie_or_full(iri: Seq<char>, ns: Seq<(Seq<char>, Seq<char>)>) -> Seq<char> {
    if exists|i: int| is_first_key(ns, iri, i) {
        let i = choose|i: int| is_first_key(ns, iri, i);
        ns[i].0 + ":"@ + iri.skip(ns[i].1.len() as int)
    } else {
        "<"@ + iri + ">"@
    }
}

/// Manchester symbol of a facet.
pub open spec fn facet_symbol(f: Facet) -> Seq<char> {
    match f {
        Facet::MinInclusive => ">="@,
        Facet::MaxInclusive => "<="@,
        Facet::MinExclusive => ">"@,
        Facet::MaxExclusive => "<"@,
        Facet::Length => "length"@,
        Facet::MinLength => "minLength"@,
        Facet::MaxLength => "maxLength"@,
        Facet::Pattern => "pattern"@,
        Facet::TotalDigits => "totalDigits"@,
        Facet::FractionDigits => "fractionDigits"@,
    }
}

/// `[symbol value]` for the first `k` facets.
pub open spec fn facets_m(fs: Seq<(Facet, Seq<char>)>, k: int) -> Seq<char>
    decreases k,
{
    if k <= 0 || k > fs.len() {
        Seq::empty()
    } else {
        facets_m(fs, k - 1) + "["@ + facet_symbol(fs[k - 1].0) + " "@ + fs[k - 1].1 + "]"@
    }
}

/// The first `k` literals, quoted and escaped, separated by `", "`.
pub open spec fn literals_m(lits: Seq<Seq<char>>, k: int) -> Seq<char>
    decreases k,
{
    if k <= 0 || k > lits.len() {
        Seq::empty()
    } else if k == 1 {
        "\""@ + escape_turtle(lits[0]) + "\""@
    } else {
        literals_m(lits, k - 1) + ", "@ + "\""@ + escape_turtle(lits[k - 1]) + "\""@
    }
}

/// `data_range_to_manchester`.
pub open spec fn dr_man(r: RangeV, ns: Seq<(Seq<char>, Seq<char>)>) -> Seq<char>
    decreases r, 0int,
{
    match r {
        RangeV::Datatype(d) => curie_or_full(d, ns),
        RangeV::DatatypeRestriction(d, fs) => curie_or_full(d, ns) + facets_m(fs, fs.len() as int),
        RangeV::DataOneOf(lits) => "{"@ + literals_m(lits, lits.len() as int) + "}"@,
        RangeV::DataComplementOf(b) => "not ("@ + dr_man(*b, ns) + ")"@,
        RangeV::DataIntersectionOf(parts) => dr_man_join(parts, parts.len() as int, ns, " and "@),
        RangeV::DataUnionOf(parts) => dr_man_join(parts, parts.len() as int, ns, " or "@),
    }
}

/// The first `k` data ranges in Manchester text, separated by `sep`.
pub open spec fn dr_man_join(
    parts: Seq<RangeV>,
    k: int,
    ns: Seq<(Seq<char>, Seq<char>)>,
    sep: Seq<char>,
) -> Seq<char>
    decreases parts, k,
{
    if k <= 0 || k > parts.len() {
        Seq::empty()
    } else if k == 1 {
        dr_man(parts[0], ns)
    } else {
        dr_man_join(parts, k - 1, ns, sep) + sep + dr_man(parts[k - 1], ns)
    }
}

/// The first `k` IRIs in Manchester text, separated by blanks.
pub open spec fn man_terms(v: Seq<Seq<char>>, k: int, ns: Seq<(Seq<char>, Seq<char>)>) -> Seq<char>
    decreases k,
{
    if k <= 0 || k > v.len() {
        Seq::empty()
    } else if k == 1 {
        man_term(v[0], ns)
    } else {
        man_terms(v, k - 1, ns) + " "@ + man_term(v[k - 1], ns)
    }
}

/// `prop kw n`, followed by the filler unless it is `owl:Thing`.
pub open spec fn card_m(prop: Seq<char>, kw: Seq<char>, n: u32, filler: ExprV, rendered: Seq<char>) -> Seq<char> {
    if filler == ExprV::Class(owl_thing()) {
        prop + " "@ + kw + " "@ + decimal(n as nat)
    } else {
        prop + " "@ + kw + " "@ + decimal(n as nat) + " "@ + rendered
    }
}

/// `class_expression_to_manchester`: the Manchester text of a class expression.
pub open spec fn ce_man(e: ExprV, ns: Seq<(Seq<char>, Seq<char>)>) -> Seq<char>
    decreases e, 0int,
{
    match e {
        ExprV::Class(c) => man_term(c, ns),
        ExprV::ObjectIntersectionOf(v) => ce_man_join(v, v.len() as int, ns, " and "@),
        ExprV::ObjectUnionOf(v) => if v.len() == 1 {
            ce_man(v[0], ns)
        } else {
            "("@ + ce_man_join(v, v.len() as int, ns, " or "@) + ")"@
        },
        ExprV::ObjectSomeValuesFrom { ope, bce } => man_term(ope, ns) + " some "@ + ce_man(*bce, ns),
        ExprV::ObjectAllValuesFrom { ope, bce } => man_term(ope, ns) + " only "@ + ce_man(*bce, ns),
        ExprV::ObjectMinCardinality { n, ope, bce } => card_m(
            man_term(ope, ns),
            "min"@,
            n,
            *bce,
            ce_man(*bce, ns),
        ),
        ExprV::ObjectMaxCardinality { n, ope, bce } => card_m(
            man_term(ope, ns),
            "max"@,
            n,
            *bce,
            ce_man(*bce, ns),
        ),
        ExprV::ObjectExactCardinality { n, ope, bce } => card_m(
            man_term(ope, ns),
            "exactly"@,
            n,
            *bce,
            ce_man(*bce, ns),
        ),
        ExprV::ObjectComplementOf(b) => "not ("@ + ce_man(*b, ns) + ")"@,
        ExprV::ObjectHasValue { ope, i } => man_term(ope, ns) + " value "@ + man_term(i, ns),
        ExprV::ObjectHasSelf(ope) => man_term(ope, ns) + " Self"@,
        ExprV::ObjectOneOf(inds) => "{ "@ + man_terms(inds, inds.len() as int, ns) + " }"@,
        ExprV::DataSomeValuesFrom { dp, dr } => man_term(dp, ns) + " some "@ + dr_man(dr, ns),
        ExprV::DataAllValuesFrom { dp, dr } => man_term(dp, ns) + " only "@ + dr_man(dr, ns),
        ExprV::DataHasValue { dp, l } => man_term(dp, ns) + " value \""@ + l + "\""@,
        ExprV::DataMinCardinality { n, dp, dr } => man_term(dp, ns) + " min "@ + decimal(n as nat)
            + " "@ + dr_man(dr, ns),
        ExprV::DataMaxCardinality { n, dp, dr } => man_term(dp, ns) + " max "@ + decimal(n as nat)
            + " "@ + dr_man(dr, ns),
        ExprV::DataExactCardinality { n, dp, dr } => man_term(dp, ns) + " exactly "@ + decimal(
            n as nat,
        ) + " "@ + dr_man(dr, ns),
    }
}

/// The first `k` expressions in Manchester text, separated by `sep`.
pub open spec fn ce_man_join(v: Seq<ExprV>, k: int, ns: Seq<(Seq<char>, Seq<char>)>, sep: Seq<char>) -> Seq<char>
    decreases v, k,
{
    if k <= 0 || k > v.len() {
        Seq::empty()
    } else if k == 1 {
        ce_man(v[0], ns)
    } else {
        ce_man_join(v, k - 1, ns, sep) + sep + ce_man(v[k - 1], ns)
    }
}

fn printable_exec(s: &[char]) -> (r: Vec<char>)
    ensures
        r@ == printable(s@),
{
    let mut out: Vec<char> = Vec::new();
    let mut i: usize = 0;
    while i < s.len()
        invariant
            0 <= i <= s.len(),
            out@ == printable(s@.take(i as int)),
        decreases s.len() - i,
    {
        let c = s[i];
        assert(s@.take(i + 1).drop_last() =~= s@.take(i as int));
        if !((c <= '\u{1f}' || ('\u{7f}' <= c && c <= '\u{9f}')) || ws(c)) {
            out.push(c);
        }
        i += 1;
    }
    assert(s@.take(s.len() as int) =~= s@);
    out
}

pub(crate) fn man_term_exec(iri: &[char], ns: &Namespaces) -> (r: Vec<char>)
    ensures
        r@ == man_term(iri@, ns@),
{
    if !safe_iri_chars(iri) {
        return printable_exec(iri);
    }
    ns.distinct();
    match best_namespace_match(iri, ns) {
        Some(i) => {
            proof {
                lemma_best_match_unique(ns@, iri@, i as int);
            }
            let mut out = slice_chars(ns.key_at(i).as_slice(), 0, ns.key_at(i).len());
            assert(out@ =~= ns@[i as int].0);
            push_str(&mut out, ":");
            push_all(&mut out, slice_chars(iri, ns.value_at(i).len(), iri.len()).as_slice());
            assert(iri@.subrange(ns@[i as int].1.len() as int, iri@.len() as int) =~= iri@.skip(
                ns@[i as int].1.len() as int,
            ));
            out
        },
        None => {
            assert(best_match(ns@, iri@) is None);
            let http = chars_of("http://");
            let https = chars_of("https://");
            if starts_with_exec(iri, http.as_slice()) || starts_with_exec(iri, https.as_slice()) {
                let mut out = chars_of("<");
                push_all(&mut out, iri);
                push_str(&mut out, ">");
                out
            } else {
                let out = slice_chars(iri, 0, iri.len());
                assert(out@ =~= iri@);
                out
            }
        },
    }
}

fn first_key_match(iri: &[char], ns: &Namespaces) -> (r: Option<usize>)
    ensures
        match r {
            Some(i) => is_first_key(ns@, iri@, i as int),
            None => forall|j: int| !is_candidate(ns@, iri@, j),
        },
{
    ns.distinct();
    proof {
        lemma_seq_lt_total();
    }
    let mut best: Option<usize> = None;
    let mut i: usize = 0;
    while i < ns.len()
        invariant
            0 <= i <= ns@.len(),
            distinct_keys(ns@),
            forall|a: Seq<char>, b: Seq<char>| a != b ==> seq_lt(a, b) || seq_lt(b, a),
            forall|a: Seq<char>, b: Seq<char>| seq_lt(a, b) ==> !seq_lt(b, a),
            forall|a: Seq<char>, b: Seq<char>, c: Seq<char>|
                #[trigger] seq_lt(a, b) && #[trigger] seq_lt(b, c) ==> seq_lt(a, c),
            match best {
                Some(b) => b < i && is_candidate(ns@, iri@, b as int) && forall|j: int|
                    0 <= j < i && is_candidate(ns@, iri@, j) && j != b ==> seq_lt(
                        ns@[b as int].0,
                        ns@[j].0,
                    ),
                None => forall|j: int| 0 <= j < i ==> !is_candidate(ns@, iri@, j),
            },
        decreases ns@.len() - i,
    {
        let k = ns.key_at(i);
        let v = ns.value_at(i);
        if k.len() > 0 && starts_with_exec(iri, v.as_slice()) {
            match best {
                None => {
                    best = Some(i);
                },
                Some(b) => {
                    let bk = ns.key_at(b);
                    assert(ns@[b as int].0 != ns@[i as int].0);
                    if chars_lt(k.as_slice(), bk.as_slice()) {
                        best = Some(i);
                    }
                },
            }
        }
        i += 1;
    }
    best
}

fn curie_or_full_exec(iri: &[char], ns: &Namespaces) -> (r: Vec<char>)
    ensures
        r@ == curie_or_full(iri@, ns@),
{
    proof {
        lemma_seq_lt_total();
    }
    match first_key_match(iri, ns) {
        Some(i) => {
            proof {
                let c = choose|x: int| is_first_key(ns@, iri@, x);
                if c != i {
                    assert(seq_lt(ns@[i as int].0, ns@[c].0));
                    assert(seq_lt(ns@[c].0, ns@[i as int].0));
                }
            }
            let mut out = slice_chars(ns.key_at(i).as_slice(), 0, ns.key_at(i).len());
            assert(out@ =~= ns@[i as int].0);
            push_str(&mut out, ":");
            push_all(&mut out, slice_chars(iri, ns.value_at(i).len(), iri.len()).as_slice());
            assert(iri@.subrange(ns@[i as int].1.len() as int, iri@.len() as int) =~= iri@.skip(
                ns@[i as int].1.len() as int,
            ));
            out
        },
        None => {
            let mut out = chars_of("<");
            push_all(&mut out, iri);
            push_str(&mut out, ">");
            out
        },
    }
}

fn facet_symbol_exec(f: Facet) -> (r: Vec<char>)
    ensures
        r@ == facet_symbol(f),
{
    match f {
        Facet::MinInclusive => chars_of(">="),
        Facet::MaxInclusive => chars_of("<="),
        Facet::MinExclusive => chars_of(">"),
        Facet::MaxExclusive => chars_of("<"),
        Facet::Length => chars_of("length"),
        Facet::MinLength => chars_of("minLength"),
        Facet::MaxLength => chars_of("maxLength"),
        Facet::Pattern => chars_of("pattern"),
        Facet::TotalDigits => chars_of("totalDigits"),
        Facet::FractionDigits => chars_of("fractionDigits"),
    }
}

/// `data_range_to_manchester`: the Manchester text of a data range.
pub(crate) fn dr_man_exec(dr: &DataRange, ns: &Namespaces) -> (r: Vec<char>)
    ensures
        r@ == dr_man(dr@, ns@),
    decreases dr, 2int,
{
    match dr {
        DataRange::Datatype(d) => curie_or_full_exec(d.as_slice(), ns),
        DataRange::DatatypeRestriction(d, fs) => {
            let mut out = curie_or_full_exec(d.as_slice(), ns);
            let ghost fv = crate::mexpr::facets_v(fs@);
            let ghost start = out@;
            let mut k: usize = 0;
            while k < fs.len()
                invariant
                    fv == crate::mexpr::facets_v(fs@),
                    fv.len() == fs.len(),
                    0 <= k <= fs.len(),
                    out@ == start + facets_m(fv, k as int),
                decreases fs.len() - k,
            {
                push_str(&mut out, "[");
                push_all(&mut out, facet_symbol_exec(fs[k].0).as_slice());
                push_str(&mut out, " ");
                push_all(&mut out, fs[k].1.as_slice());
                push_str(&mut out, "]");
                k += 1;
            }
            out
        },
        DataRange::DataOneOf(lits) => {
            let ghost lv = texts_of(lits@);
            let mut out = chars_of("{");
            let ghost start = out@;
            let mut k: usize = 0;
            while k < lits.len()
                invariant
                    lv == texts_of(lits@),
                    lv.len() == lits.len(),
                    0 <= k <= lits.len(),
                    out@ == start + literals_m(lv, k as int),
                decreases lits.len() - k,
            {
                if k > 0 {
                    push_str(&mut out, ", ");
                }
                push_str(&mut out, "\"");
                push_all(&mut out, escape_turtle_string(lits[k].as_slice()).as_slice());
                push_str(&mut out, "\"");
                k += 1;
            }
            push_str(&mut out, "}");
            out
        },
        DataRange::DataComplementOf(b) => {
            let mut out = chars_of("not (");
            push_all(&mut out, dr_man_exec(b, ns).as_slice());
            push_str(&mut out, ")");
            out
        },
        DataRange::DataIntersectionOf(parts) => dr_man_list(parts, ns, " and ", Ghost(*dr)),
        DataRange::DataUnionOf(parts) => dr_man_list(parts, ns, " or ", Ghost(*dr)),
    }
}

fn dr_man_list(parts: &Vec<DataRange>, ns: &Namespaces, sep: &str, Ghost(parent): Ghost<DataRange>) -> (r: Vec<char>)
    requires
        decreases_to!(parent => parts),
    ensures
        r@ == dr_man_join(ranges_v(parts@), parts.len() as int, ns@, sep@),
        ranges_v(parts@).len() == parts.len(),
    decreases parent, 1int,
{
    let ghost pv = ranges_v(parts@);
    proof {
        lemma_ranges_index(parts@);
    }
    let mut out: Vec<char> = Vec::new();
    let mut k: usize = 0;
    while k < parts.len()
        invariant
            pv == ranges_v(parts@),
            pv.len() == parts.len(),
            forall|j: int| 0 <= j < parts.len() ==> #[trigger] pv[j] == range_v(parts@[j]),
            decreases_to!(parent => parts),
            0 <= k <= parts.len(),
            out@ == dr_man_join(pv, k as int, ns@, sep@),
        decreases parts.len() - k,
    {
        assert(pv[k as int] == parts@[k as int]@);
        proof {
            assert(decreases_to!(parts => parts[k as int]));
        }
        let x = dr_man_exec(&parts[k], ns);
        if k > 0 {
            push_str(&mut out, sep);
        }
        push_all(&mut out, x.as_slice());
        k += 1;
    }
    out
}

fn man_terms_exec(v: &Vec<Vec<char>>, ns: &Namespaces) -> (r: Vec<char>)
    ensures
        r@ == man_terms(texts_of(v@), v.len() as int, ns@),
{
    let ghost tv = texts_of(v@);
    let mut out: Vec<char> = Vec::new();
    let mut k: usize = 0;
    while k < v.len()
        invariant
            tv == texts_of(v@),
            tv.len() == v.len(),
            0 <= k <= v.len(),
            out@ == man_terms(tv, k as int, ns@),
        decreases v.len() - k,
    {
        if k > 0 {
            push_str(&mut out, " ");
        }
        push_all(&mut out, man_term_exec(v[k].as_slice(), ns).as_slice());
        k += 1;
    }
    out
}

fn ce_man_list(v: &Vec<ClassExpression>, ns: &Namespaces, sep: &str, Ghost(parent): Ghost<ClassExpression>) -> (r: Vec<char>)
    requires
        decreases_to!(parent => v),
    ensures
        r@ == ce_man_join(exprs_v(v@), v.len() as int, ns@, sep@),
        exprs_v(v@).len() == v.len(),
    decreases parent, 1int,
{
    let ghost ev = exprs_v(v@);
    proof {
        lemma_exprs_index(v@);
    }
    let mut out: Vec<char> = Vec::new();
    let mut k: usize = 0;
    while k < v.len()
        invariant
            ev == exprs_v(v@),
            ev.len() == v.len(),
            forall|j: int| 0 <= j < v.len() ==> #[trigger] ev[j] == expr_v(v@[j]),
            decreases_to!(parent => v),
            0 <= k <= v.len(),
            out@ == ce_man_join(ev, k as int, ns@, sep@),
        decreases v.len() - k,
    {
        assert(ev[k as int] == v@[k as int]@);
        proof {
            assert(decreases_to!(v => v[k as int]));
        }
        let x = ce_man_exec(&v[k], ns);
        if k > 0 {
            push_str(&mut out, sep);
        }
        push_all(&mut out, x.as_slice());
        k += 1;
    }
    out
}

fn is_owl_thing(e: &ClassExpression) -> (r: bool)
    ensures
        r == (e@ == ExprV::Class(owl_thing())),
{
    match e {
        ClassExpression::Class(c) => {
            let t = chars_of("http://www.w3.org/2002/07/owl#Thing");
            seq_eq(c.as_slice(), t.as_slice())
        },
        _ => false,
    }
}

fn card_man(e: &ClassExpression, ns: &Namespaces) -> (r: Vec<char>)
    requires
        e is ObjectMinCardinality || e is ObjectMaxCardinality || e is ObjectExactCardinality,
    ensures
        r@ == ce_man(e@, ns@),
    decreases e, 1int,
{
    let (n, ope, bce, kw) = match e {
        ClassExpression::ObjectMinCardinality { n, ope, bce } => (n, ope, bce, "min"),
        ClassExpression::ObjectMaxCardinality { n, ope, bce } => (n, ope, bce, "max"),
        ClassExpression::ObjectExactCardinality { n, ope, bce } => (n, ope, bce, "exactly"),
        _ => {
            return Vec::new();
        },
    };
    let mut out = man_term_exec(ope.as_slice(), ns);
    push_str(&mut out, " ");
    push_str(&mut out, kw);
    push_str(&mut out, " ");
    push_all(&mut out, decimal_exec(*n as u64).as_slice());
    if !is_owl_thing(bce) {
        push_str(&mut out, " ");
        push_all(&mut out, ce_man_exec(bce, ns).as_slice());
    }
    out
}

fn data_man(e: &ClassExpression, ns: &Namespaces) -> (r: Vec<char>)
    requires
        e is DataSomeValuesFrom || e is DataAllValuesFrom || e is DataHasValue
            || e is DataMinCardinality || e is DataMaxCardinality || e is DataExactCardinality,
    ensures
        r@ == ce_man(e@, ns@),
{
    match e {
        ClassExpression::DataSomeValuesFrom { dp, dr } => {
            let mut out = man_term_exec(dp.as_slice(), ns);
            push_str(&mut out, " some ");
            push_all(&mut out, dr_man_exec(dr, ns).as_slice());
            out
        },
        ClassExpression::DataAllValuesFrom { dp, dr } => {
            let mut out = man_term_exec(dp.as_slice(), ns);
            push_str(&mut out, " only ");
            push_all(&mut out, dr_man_exec(dr, ns).as_slice());
            out
        },
        ClassExpression::DataHasValue { dp, l } => {
            let mut out = man_term_exec(dp.as_slice(), ns);
            push_str(&mut out, " value \"");
            push_all(&mut out, l.as_slice());
            push_str(&mut out, "\"");
            out
        },
        ClassExpression::DataMinCardinality { n, dp, dr } => {
            let mut out = man_term_exec(dp.as_slice(), ns);
            push_str(&mut out, " min ");
            push_all(&mut out, decimal_exec(*n as u64).as_slice());
            push_str(&mut out, " ");
            push_all(&mut out, dr_man_exec(dr, ns).as_slice());
            out
        },
        ClassExpression::DataMaxCardinality { n, dp, dr } => {
            let mut out = man_term_exec(dp.as_slice(), ns);
            push_str(&mut out, " max ");
            push_all(&mut out, decimal_exec(*n as u64).as_slice());
            push_str(&mut out, " ");
            push_all(&mut out, dr_man_exec(dr, ns).as_slice());
            out
        },
        ClassExpression::DataExactCardinality { n, dp, dr } => {
            let mut out = man_term_exec(dp.as_slice(), ns);
            push_str(&mut out, " exactly ");
            push_all(&mut out, decimal_exec(*n as u64).as_slice());
            push_str(&mut out, " ");
            push_all(&mut out, dr_man_exec(dr, ns).as_slice());
            out
        },
        _ => Vec::new(),
    }
}

/// `class_expression_to_manchester`: the Manchester text of a class expression.
pub(crate) fn ce_man_exec(e: &ClassExpression, ns: &Namespaces) -> (r: Vec<char>)
    ensures
        r@ == ce_man(e@, ns@),
    decreases e, 2int,
{
    match e {
        ClassExpression::Class(c) => man_term_exec(c.as_slice(), ns),
        ClassExpression::ObjectIntersectionOf(v) => ce_man_list(v, ns, " and ", Ghost(*e)),
        ClassExpression::ObjectUnionOf(v) => {
            proof {
                lemma_exprs_index(v@);
            }
            if v.len() == 1 {
                assert(decreases_to!(v => v[0]));
                return ce_man_exec(&v[0], ns);
            }
            let mut out = chars_of("(");
            push_all(&mut out, ce_man_list(v, ns, " or ", Ghost(*e)).as_slice());
            push_str(&mut out, ")");
            out
        },
        ClassExpression::ObjectSomeValuesFrom { ope, bce } => {
            let mut out = man_term_exec(ope.as_slice(), ns);
            push_str(&mut out, " some ");
            push_all(&mut out, ce_man_exec(bce, ns).as_slice());
            out
        },
        ClassExpression::ObjectAllValuesFrom { ope, bce } => {
            let mut out = man_term_exec(ope.as_slice(), ns);
            push_str(&mut out, " only ");
            push_all(&mut out, ce_man_exec(bce, ns).as_slice());
            out
        },
        ClassExpression::ObjectMinCardinality { .. } | ClassExpression::ObjectMaxCardinality { .. }
        | ClassExpression::ObjectExactCardinality { .. } => card_man(e, ns),
        ClassExpression::ObjectComplementOf(b) => {
            let mut out = chars_of("not (");
            push_all(&mut out, ce_man_exec(b, ns).as_slice());
            push_str(&mut out, ")");
            out
        },
        ClassExpression::ObjectHasValue { ope, i } => {
            let mut out = man_term_exec(ope.as_slice(), ns);
            push_str(&mut out, " value ");
            push_all(&mut out, man_term_exec(i.as_slice(), ns).as_slice());
            out
        },
        ClassExpression::ObjectHasSelf(ope) => {
            let mut out = man_term_exec(ope.as_slice(), ns);
            push_str(&mut out, " Self");
            out
        },
        ClassExpression::ObjectOneOf(inds) => {
            let mut out = chars_of("{ ");
            push_all(&mut out, man_terms_exec(inds, ns).as_slice());
            push_str(&mut out, " }");
            out
        },
        _ => data_man(e, ns),
    }
}


/// `data_range_to_manchester`: the Manchester text of a data range.
pub fn data_range_to_manchester(dr: &DataRange, ns: &Namespaces) -> (r: String)
    ensures
        r@ == dr_man(dr@, ns@),
{
    crate::text::string_from(dr_man_exec(dr, ns).as_slice())
}

/// `class_expression_to_manchester`: the Manchester text of a class expression.
pub fn class_expression_to_manchester(e: &ClassExpression, ns: &Namespaces) -> (r: String)
    ensures
        r@ == ce_man(e@, ns@),
{
    crate::text::string_from(ce_man_exec(e, ns).as_slice())
}

/// The lexer reads `w` back as the keyword `k`.
pub open spec fn spells_keyword(w: Seq<char>, k: crate::mlex::Keyword) -> bool {
    crate::mlex::keyword_of(w) == Some(k)
}

proof fn lemma_keyword_words()
    ensures
        spells_keyword("only"@, crate::mlex::Keyword::Only),
        spells_keyword("some"@, crate::mlex::Keyword::SomeKw),
        spells_keyword("min"@, crate::mlex::Keyword::Min),
        spells_keyword("max"@, crate::mlex::Keyword::Max),
        spells_keyword("exactly"@, crate::mlex::Keyword::Exactly),
        spells_keyword("value"@, crate::mlex::Keyword::Value),
        spells_keyword("Self"@, crate::mlex::Keyword::SelfKw),
        spells_keyword("and"@, crate::mlex::Keyword::And),
        spells_keyword("or"@, crate::mlex::Keyword::Or),
        spells_keyword("not"@, crate::mlex::Keyword::Not),
{
    reveal_strlit("only");
    reveal_strlit("some");
    reveal_strlit("and");
    reveal_strlit("or");
    reveal_strlit("min");
    reveal_strlit("max");
    reveal_strlit("exactly");
    reveal_strlit("not");
    reveal_strlit("value");
    reveal_strlit("self");
    reveal_strlit("Self");
    assert(!crate::text::eq_ignore_case("only"@, "and"@));
    assert(!crate::text::eq_ignore_case("only"@, "or"@));
    assert(!crate::text::eq_ignore_case("only"@, "some"@)) by {
        assert(crate::text::upper_spec("only"@[0]) != crate::text::upper_spec("some"@[0]));
    }
    assert(crate::text::eq_ignore_case("only"@, "only"@));
    assert(!crate::text::eq_ignore_case("some"@, "and"@));
    assert(!crate::text::eq_ignore_case("some"@, "or"@));
    assert(crate::text::eq_ignore_case("some"@, "some"@));
    assert(!crate::text::eq_ignore_case("min"@, "and"@)) by {
        assert(crate::text::upper_spec("min"@[0]) != crate::text::upper_spec("and"@[0]));
    }
    assert(!crate::text::eq_ignore_case("min"@, "or"@));
    assert(!crate::text::eq_ignore_case("min"@, "some"@));
    assert(!crate::text::eq_ignore_case("min"@, "only"@));
    assert(crate::text::eq_ignore_case("min"@, "min"@));
    assert(!crate::text::eq_ignore_case("max"@, "and"@)) by {
        assert(crate::text::upper_spec("max"@[0]) != crate::text::upper_spec("and"@[0]));
    }
    assert(!crate::text::eq_ignore_case("max"@, "or"@));
    assert(!crate::text::eq_ignore_case("max"@, "some"@));
    assert(!crate::text::eq_ignore_case("max"@, "only"@));
    assert(!crate::text::eq_ignore_case("max"@, "min"@)) by {
        assert(crate::text::upper_spec("max"@[1]) != crate::text::upper_spec("min"@[1]));
    }
    assert(crate::text::eq_ignore_case("max"@, "max"@));
    assert(!crate::text::eq_ignore_case("exactly"@, "and"@));
    assert(!crate::text::eq_ignore_case("exactly"@, "or"@));
    assert(!crate::text::eq_ignore_case("exactly"@, "some"@));
    assert(!crate::text::eq_ignore_case("exactly"@, "only"@));
    assert(!crate::text::eq_ignore_case("exactly"@, "min"@));
    assert(!crate::text::eq_ignore_case("exactly"@, "max"@));
    assert(crate::text::eq_ignore_case("exactly"@, "exactly"@));
    assert(!crate::text::eq_ignore_case("value"@, "and"@));
    assert(!crate::text::eq_ignore_case("value"@, "or"@));
    assert(!crate::text::eq_ignore_case("value"@, "some"@));
    assert(!crate::text::eq_ignore_case("value"@, "only"@));
    assert(!crate::text::eq_ignore_case("value"@, "min"@));
    assert(!crate::text::eq_ignore_case("value"@, "max"@));
    assert(!crate::text::eq_ignore_case("value"@, "exactly"@));
    assert(!crate::text::eq_ignore_case("value"@, "not"@));
    assert(crate::text::eq_ignore_case("value"@, "value"@));
    assert(!crate::text::eq_ignore_case("Self"@, "and"@));
    assert(!crate::text::eq_ignore_case("Self"@, "or"@));
    assert(!crate::text::eq_ignore_case("Self"@, "some"@)) by {
        assert(crate::text::upper_spec("Self"@[1]) != crate::text::upper_spec("some"@[1]));
    }
    assert(!crate::text::eq_ignore_case("Self"@, "only"@));
    assert(!crate::text::eq_ignore_case("Self"@, "min"@));
    assert(!crate::text::eq_ignore_case("Self"@, "max"@));
    assert(!crate::text::eq_ignore_case("Self"@, "exactly"@));
    assert(!crate::text::eq_ignore_case("Self"@, "not"@));
    assert(!crate::text::eq_ignore_case("Self"@, "value"@));
    assert(crate::text::eq_ignore_case("Self"@, "self"@));
    assert(crate::text::eq_ignore_case("and"@, "and"@));
    assert(!crate::text::eq_ignore_case("or"@, "and"@));
    assert(crate::text::eq_ignore_case("or"@, "or"@));
    assert(!crate::text::eq_ignore_case("not"@, "and"@)) by {
        assert(crate::text::upper_spec("not"@[0]) != crate::text::upper_spec("and"@[0]));
    }
    assert(!crate::text::eq_ignore_case("not"@, "or"@));
    assert(!crate::text::eq_ignore_case("not"@, "some"@));
    assert(!crate::text::eq_ignore_case("not"@, "only"@));
    assert(!crate::text::eq_ignore_case("not"@, "min"@));
    assert(!crate::text::eq_ignore_case("not"@, "max"@));
    assert(!crate::text::eq_ignore_case("not"@, "exactly"@));
    assert(crate::text::eq_ignore_case("not"@, "not"@));
}

/// Law: a universal restriction on a property is written as the property's term, a blank, a
/// word the lexer reads as `only`, a blank and the filler's text; an existential one the same
/// way with a word read as `some`. So, over the same property and filler, the two never
/// render alike. This holds for object restrictions and for data restrictions.
pub proof fn law_manchester_restriction_keywords(
    ope: Seq<char>,
    filler: ExprV,
    range: RangeV,
    ns: Seq<(Seq<char>, Seq<char>)>,
)
    ensures
        exists|w: Seq<char>|
            #![trigger spells_keyword(w, crate::mlex::Keyword::Only)]
            spells_keyword(w, crate::mlex::Keyword::Only) && ce_man(
                ExprV::ObjectAllValuesFrom { ope, bce: Box::new(filler) },
                ns,
            ) == man_term(ope, ns) + " "@ + w + " "@ + ce_man(filler, ns),
        exists|w: Seq<char>|
            #![trigger spells_keyword(w, crate::mlex::Keyword::SomeKw)]
            spells_keyword(w, crate::mlex::Keyword::SomeKw) && ce_man(
                ExprV::ObjectSomeValuesFrom { ope, bce: Box::new(filler) },
                ns,
            ) == man_term(ope, ns) + " "@ + w + " "@ + ce_man(filler, ns),
        ce_man(ExprV::ObjectAllValuesFrom { ope, bce: Box::new(filler) }, ns) != ce_man(
            ExprV::ObjectSomeValuesFrom { ope, bce: Box::new(filler) },
            ns,
        ),
        exists|w: Seq<char>|
            #![trigger spells_keyword(w, crate::mlex::Keyword::Only)]
            spells_keyword(w, crate::mlex::Keyword::Only) && ce_man(ExprV::DataAllValuesFrom { dp: ope, dr: range }, ns)
                == man_term(ope, ns) + " "@ + w + " "@ + dr_man(range, ns),
        exists|w: Seq<char>|
            #![trigger spells_keyword(w, crate::mlex::Keyword::SomeKw)]
            spells_keyword(w, crate::mlex::Keyword::SomeKw) && ce_man(ExprV::DataSomeValuesFrom { dp: ope, dr: range }, ns)
                == man_term(ope, ns) + " "@ + w + " "@ + dr_man(range, ns),
        ce_man(ExprV::DataAllValuesFrom { dp: ope, dr: range }, ns) != ce_man(
            ExprV::DataSomeValuesFrom { dp: ope, dr: range },
            ns,
        ),
{
    lemma_keyword_words();
    reveal_strlit(" only ");
    reveal_strlit(" some ");
    reveal_strlit(" ");
    reveal_strlit("only");
    reveal_strlit("some");
    let t = man_term(ope, ns);
    let f = ce_man(filler, ns);
    let d = dr_man(range, ns);
    let all = ce_man(ExprV::ObjectAllValuesFrom { ope, bce: Box::new(filler) }, ns);
    let some = ce_man(ExprV::ObjectSomeValuesFrom { ope, bce: Box::new(filler) }, ns);
    assert(all =~= t + " "@ + "only"@ + " "@ + f);
    assert(some =~= t + " "@ + "some"@ + " "@ + f);
    assert(all[t.len() + 1int] != some[t.len() + 1int]);
    let dall = ce_man(ExprV::DataAllValuesFrom { dp: ope, dr: range }, ns);
    let dsome = ce_man(ExprV::DataSomeValuesFrom { dp: ope, dr: range }, ns);
    assert(dall =~= t + " "@ + "only"@ + " "@ + d);
    assert(dsome =~= t + " "@ + "some"@ + " "@ + d);
    assert(dall[t.len() + 1int] != dsome[t.len() + 1int]);
}

/// The property of a property-first restriction and the keyword it is written with:
/// `some`, `only`, `min`, `max`, `exactly`, `value` or `Self`.
pub open spec fn restriction_keyword(e: ExprV) -> Option<(Seq<char>, crate::mlex::Keyword)> {
    match e {
        ExprV::ObjectSomeValuesFrom { ope, .. } => Some((ope, crate::mlex::Keyword::SomeKw)),
        ExprV::ObjectAllValuesFrom { ope, .. } => Some((ope, crate::mlex::Keyword::Only)),
        ExprV::ObjectMinCardinality { ope, .. } => Some((ope, crate::mlex::Keyword::Min)),
        ExprV::ObjectMaxCardinality { ope, .. } => Some((ope, crate::mlex::Keyword::Max)),
        ExprV::ObjectExactCardinality { ope, .. } => Some((ope, crate::mlex::Keyword::Exactly)),
        ExprV::ObjectHasValue { ope, .. } => Some((ope, crate::mlex::Keyword::Value)),
        ExprV::ObjectHasSelf(ope) => Some((ope, crate::mlex::Keyword::SelfKw)),
        ExprV::DataSomeValuesFrom { dp, .. } => Some((dp, crate::mlex::Keyword::SomeKw)),
        ExprV::DataAllValuesFrom { dp, .. } => Some((dp, crate::mlex::Keyword::Only)),
        ExprV::DataHasValue { dp, .. } => Some((dp, crate::mlex::Keyword::Value)),
        ExprV::DataMinCardinality { dp, .. } => Some((dp, crate::mlex::Keyword::Min)),
        ExprV::DataMaxCardinality { dp, .. } => Some((dp, crate::mlex::Keyword::Max)),
        ExprV::DataExactCardinality { dp, .. } => Some((dp, crate::mlex::Keyword::Exactly)),
        _ => None,
    }
}

/// Law: every property-first restriction is written as its property's term, a blank, and a
/// word that the lexer reads as the restriction's own keyword (`restriction_keyword`), then
/// either nothing or a blank and the rest; so restrictions of different kinds on the same
/// property never start alike.
#[verifier::spinoff_prover]
#[verifier::rlimit(50)]
pub proof fn law_manchester_restriction_words(e: ExprV, ns: Seq<(Seq<char>, Seq<char>)>)
    requires
        restriction_keyword(e) is Some,
    ensures
        exists|w: Seq<char>, rest: Seq<char>|
            #![trigger spells_keyword(w, restriction_keyword(e)->Some_0.1), man_term(restriction_keyword(e)->Some_0.0, ns) + " "@ + w + rest]
            spells_keyword(w, restriction_keyword(e)->Some_0.1) && ce_man(e, ns) == man_term(
                restriction_keyword(e)->Some_0.0,
                ns,
            ) + " "@ + w + rest && (rest.len() == 0 || rest[0] == ' '),
{
    lemma_keyword_words();
    reveal_strlit(" ");
    reveal_strlit(" some ");
    reveal_strlit(" only ");
    reveal_strlit(" value ");
    reveal_strlit(" value \"");
    reveal_strlit(" Self");
    reveal_strlit(" min ");
    reveal_strlit(" max ");
    reveal_strlit(" exactly ");
    reveal_strlit("some");
    reveal_strlit("only");
    reveal_strlit("value");
    reveal_strlit("Self");
    reveal_strlit("min");
    reveal_strlit("max");
    reveal_strlit("exactly");
    let (prop, k) = restriction_keyword(e)->Some_0;
    let t = man_term(prop, ns);
    let x = ce_man(e, ns);
    match e {
        ExprV::ObjectSomeValuesFrom { ope, bce } => {
            let rest = " "@ + ce_man(*bce, ns);
            assert(x =~= t + " "@ + "some"@ + rest);
        },
        ExprV::ObjectAllValuesFrom { ope, bce } => {
            let rest = " "@ + ce_man(*bce, ns);
            assert(x =~= t + " "@ + "only"@ + rest);
        },
        ExprV::ObjectMinCardinality { n, ope, bce } => {
            let rest = x.skip(t.len() + 4int);
            assert(x =~= t + " "@ + "min"@ + rest);
        },
        ExprV::ObjectMaxCardinality { n, ope, bce } => {
            let rest = x.skip(t.len() + 4int);
            assert(x =~= t + " "@ + "max"@ + rest);
        },
        ExprV::ObjectExactCardinality { n, ope, bce } => {
            let rest = x.skip(t.len() + 8int);
            assert(x =~= t + " "@ + "exactly"@ + rest);
        },
        ExprV::ObjectHasValue { ope, i } => {
            let rest = " "@ + man_term(i, ns);
            assert(x =~= t + " "@ + "value"@ + rest);
        },
        ExprV::ObjectHasSelf(ope) => {
            let rest = Seq::<char>::empty();
            assert(x =~= t + " "@ + "Self"@ + rest);
        },
        ExprV::DataSomeValuesFrom { dp, dr } => {
            let rest = " "@ + dr_man(dr, ns);
            assert(x =~= t + " "@ + "some"@ + rest);
        },
        ExprV::DataAllValuesFrom { dp, dr } => {
            let rest = " "@ + dr_man(dr, ns);
            assert(x =~= t + " "@ + "only"@ + rest);
        },
        ExprV::DataHasValue { dp, l } => {
            let rest = x.skip(t.len() + 6int);
            assert(x =~= t + " "@ + "value"@ + rest);
        },
        ExprV::DataMinCardinality { n, dp, dr } => {
            let rest = x.skip(t.len() + 4int);
            assert(x =~= t + " "@ + "min"@ + rest);
        },
        ExprV::DataMaxCardinality { n, dp, dr } => {
            let rest = x.skip(t.len() + 4int);
            assert(x =~= t + " "@ + "max"@ + rest);
        },
        ExprV::DataExactCardinality { n, dp, dr } => {
            let rest = x.skip(t.len() + 8int);
            assert(x =~= t + " "@ + "exactly"@ + rest);
        },
        _ => {},
    }
}

/// Law: two operands joined by `and` (an intersection) or by `or` (a union, in brackets), and a
/// complement, are written with words the lexer reads as `and`, `or` and `not`.
pub proof fn law_manchester_boolean_words(a: ExprV, b: ExprV, ns: Seq<(Seq<char>, Seq<char>)>)
    ensures
        exists|w: Seq<char>|
            #![trigger spells_keyword(w, crate::mlex::Keyword::And)]
            spells_keyword(w, crate::mlex::Keyword::And) && ce_man(ExprV::ObjectIntersectionOf(seq![a, b]), ns)
                == ce_man(a, ns) + " "@ + w + " "@ + ce_man(b, ns),
        exists|w: Seq<char>|
            #![trigger spells_keyword(w, crate::mlex::Keyword::Or)]
            spells_keyword(w, crate::mlex::Keyword::Or) && ce_man(ExprV::ObjectUnionOf(seq![a, b]), ns)
                == "("@ + ce_man(a, ns) + " "@ + w + " "@ + ce_man(b, ns) + ")"@,
        exists|w: Seq<char>|
            #![trigger spells_keyword(w, crate::mlex::Keyword::Not)]
            spells_keyword(w, crate::mlex::Keyword::Not) && ce_man(ExprV::ObjectComplementOf(Box::new(b)), ns)
                == w + " ("@ + ce_man(b, ns) + ")"@,
{
    lemma_keyword_words();
    reveal_strlit(" ");
    reveal_strlit(" and ");
    reveal_strlit(" or ");
    reveal_strlit("not (");
    reveal_strlit(" (");
    reveal_strlit("and");
    reveal_strlit("or");
    reveal_strlit("not");
    let v = seq![a, b];
    assert(v.len() == 2 && v[0] == a && v[1] == b);
    assert(ce_man_join(v, 1, ns, " and "@) == ce_man(a, ns));
    assert(ce_man_join(v, 2, ns, " and "@) == ce_man_join(v, 1, ns, " and "@) + " and "@ + ce_man(b, ns));
    assert(ce_man_join(v, 2, ns, " or "@) == ce_man_join(v, 1, ns, " or "@) + " or "@ + ce_man(b, ns));
    assert(ce_man(ExprV::ObjectIntersectionOf(v), ns) =~= ce_man(a, ns) + " "@ + "and"@ + " "@ + ce_man(b, ns));
    assert(ce_man_join(v, 1, ns, " or "@) == ce_man(a, ns));
    assert(ce_man(ExprV::ObjectUnionOf(v), ns) =~= "("@ + ce_man(a, ns) + " "@ + "or"@ + " "@ + ce_man(b, ns) + ")"@);
    assert(ce_man(ExprV::ObjectComplementOf(Box::new(b)), ns) =~= "not"@ + " ("@ + ce_man(b, ns) + ")"@);
}

} // verus!
