//! Axioms written as standalone blank-node blocks: negative property assertions and axiom
//! annotations.
use vstd::prelude::*;
use crate::block::{match_exec, match_from};
use crate::edit::{bare_value, strip_both_exec};
use crate::error::{err_of, make_err, outcome, ErrKind, OwlError, Outcome};
use crate::iri::{iri_to_turtle_term, safe_iri, turtle_term, unsafe_iri_detail};
use crate::lex::{
    bracket_end, bracket_end_exec, lemma_bracket_close_range, lex_step, lex_step_exec, Lex,
};
use crate::lists::{terms_for, vviews};
use crate::literal::{escape_turtle, escape_turtle_string, normalize_ws, normalize_ws_exec};
use crate::namespaces::Namespaces;
use crate::ops::{explicit_iri_term, explicit_iri_term_exec, predicate_term, predicate_term_exec};
use crate::prefixes::with_blank_line;
use crate::text::{
    chars_of, contains, contains_exec, lemma_skip_ws_bounds, lemma_trim_end_bounds, push_all,
    push_str, seq_eq, skip_ws, skip_ws_exec, slice_chars, trim_end, trim_end_exec, trim_exec,
};

verus! {

/// `b` appended as its own block after a blank line, ending with a newline
/// (`append_standalone_block`).
pub open spec fn append_block(t: Seq<char>, b: Seq<char>) -> Seq<char> {
    with_blank_line(t) + b + (if b.len() > 0 && b.last() == '\n' {
        Seq::empty()
    } else {
        "\n"@
    })
}

/// Append `b` unless the text already contains it, whitespace-normalised.
pub open spec fn add_block(t: Seq<char>, b: Seq<char>) -> Seq<char> {
    if contains(normalize_ws(t), normalize_ws(b)) {
        t
    } else {
        append_block(t, b)
    }
}

pub fn add_block_exec(t: &[char], b: &[char]) -> (r: Vec<char>)
    ensures
        r@ == add_block(t@, b@),
{
    let nt = normalize_ws_exec(t);
    let nb = normalize_ws_exec(b);
    let mut out = copy_chars(t);
    assert(out@ =~= t@);
    if contains_exec(nt.as_slice(), nb.as_slice()) {
        return out;
    }
    if out.len() > 0 && out[out.len() - 1] != '\n' {
        out.push('\n');
    }
    let n = out.len();
    if n > 0 && !(n >= 2 && out[n - 1] == '\n' && out[n - 2] == '\n') {
        out.push('\n');
    }
    assert(out@ == with_blank_line(t@));
    push_all(&mut out, b);
    if !(b.len() > 0 && b[b.len() - 1] == '\n') {
        out.push('\n');
    }
    proof {
        reveal_strlit("\n");
    }
    assert(out@ =~= append_block(t@, b@));
    out
}

/// What identifies a standalone block to remove.
pub enum BlockQuery {
    /// A negative property assertion with this source and property, and target individual or
    /// literal value when given.
    Npa { source: Vec<char>, prop: Vec<char>, target: Option<Vec<char>>, value: Option<Vec<char>> },
    /// An axiom annotation of this source, annotated property and target, with an annotation
    /// `pred` whose value is exactly `lexical`.
    Ann { source: Vec<char>, property: Vec<char>, target: Vec<char>, pred: Vec<char>, lexical: Vec<char> },
}

/// Contents of a `[ … ]` block without its brackets (the block itself if not bracketed).
pub open spec fn bracket_inner(b: Seq<char>) -> Seq<char> {
    if b.len() > 0 && b[0] == '[' && trim_end(b.drop_first()).len() > 0 && trim_end(b.drop_first()).last()
        == ']' {
        trim_end(b.drop_first()).drop_last()
    } else {
        b
    }
}

/// A negative property assertion block for these terms (`remove_matching_npa_block`).
pub open spec fn npa_ok(
    b: Seq<char>,
    source: Seq<char>,
    prop: Seq<char>,
    target: Option<Seq<char>>,
    value: Option<Seq<char>>,
) -> bool {
    &&& contains(b, "owl:NegativePropertyAssertion"@)
    &&& contains(b, source)
    &&& contains(b, prop)
    &&& (target matches Some(x) ==> contains(b, x))
    &&& (value matches Some(v) ==> contains(b, bare_value(v)))
}

/// An axiom annotation block for these terms whose annotation value is exactly `lexical`
/// (`remove_axiom_annotation`, `axiom_block_has_exact_annotation_value`).
pub open spec fn ann_ok(
    b: Seq<char>,
    source: Seq<char>,
    property: Seq<char>,
    target: Seq<char>,
    pred: Seq<char>,
    lexical: Seq<char>,
) -> bool {
    &&& contains(b, "owl:Axiom"@)
    &&& contains(b, source)
    &&& contains(b, property)
    &&& contains(b, target)
    &&& contains(b, pred)
    &&& match_from(bracket_inner(b), pred, 2, normalize_ws(lexical), 0) is Some
}

pub open spec fn opt_view(o: Option<Vec<char>>) -> Option<Seq<char>> {
    match o {
        Some(x) => Some(x@),
        None => None,
    }
}

/// The block matches the query.
pub open spec fn block_ok(b: Seq<char>, q: BlockQuery) -> bool {
    match q {
        BlockQuery::Npa { source, prop, target, value } => npa_ok(
            b,
            source@,
            prop@,
            opt_view(target),
            opt_view(value),
        ),
        BlockQuery::Ann { source, property, target, pred, lexical } => ann_ok(
            b,
            source@,
            property@,
            target@,
            pred@,
            lexical@,
        ),
    }
}

fn bracket_inner_exec(b: &[char]) -> (r: Vec<char>)
    ensures
        r@ == bracket_inner(b@),
{
    if b.len() > 0 && b[0] == '[' {
        let rest = slice_chars(b, 1, b.len());
        assert(rest@ =~= b@.drop_first());
        let e = trim_end_exec(rest.as_slice(), rest.len());
        proof {
            lemma_trim_end_bounds(rest@, rest@.len() as int);
        }
        let te = slice_chars(rest.as_slice(), 0, e);
        assert(te@ == trim_end(rest@));
        if te.len() > 0 && te[te.len() - 1] == ']' {
            let r = slice_chars(te.as_slice(), 0, te.len() - 1);
            assert(r@ =~= te@.drop_last());
            return r;
        }
    }
    let r = copy_chars(b);
    assert(r@ =~= b@);
    r
}

fn block_ok_exec(b: &[char], q: &BlockQuery) -> (r: bool)
    ensures
        r == block_ok(b@, *q),
{
    match q {
        BlockQuery::Npa { source, prop, target, value } => {
            let npa = chars_of("owl:NegativePropertyAssertion");
            if !contains_exec(b, npa.as_slice()) || !contains_exec(b, source.as_slice())
                || !contains_exec(b, prop.as_slice()) {
                return false;
            }
            match target {
                Some(x) => {
                    if !contains_exec(b, x.as_slice()) {
                        return false;
                    }
                },
                None => {},
            }
            match value {
                Some(v) => {
                    let a = trim_exec(v.as_slice());
                    let c = strip_both_exec(a.as_slice(), '"');
                    let d = strip_both_exec(c.as_slice(), '\'');
                    contains_exec(b, d.as_slice())
                },
                None => true,
            }
        },
        BlockQuery::Ann { source, property, target, pred, lexical } => {
            let ax = chars_of("owl:Axiom");
            if !contains_exec(b, ax.as_slice()) || !contains_exec(b, source.as_slice())
                || !contains_exec(b, property.as_slice()) || !contains_exec(b, target.as_slice())
                || !contains_exec(b, pred.as_slice()) {
                return false;
            }
            let inner = bracket_inner_exec(b);
            let nv = normalize_ws_exec(lexical.as_slice());
            match_exec(inner.as_slice(), pred.as_slice(), 2, nv.as_slice()).is_some()
        },
    }
}

/// First `[ … ]` block in code context, from `i` on, accepted by `ok`.
pub open spec fn bracket_scan(t: Seq<char>, i: int, lex: Lex, ok: spec_fn(Seq<char>) -> bool) -> Option<
    (int, int),
>
    decreases t.len() - i,
{
    if i < 0 || i >= t.len() {
        None
    } else if lex == Lex::Code && t[i] == '[' && bracket_end(t, i) is Some {
        let end = bracket_end(t, i)->Some_0;
        proof {
            lemma_bracket_close_range(t, i, Lex::Code, 0);
        }
        if end <= i {
            None
        } else if ok(t.subrange(i, end)) {
            Some((i, end))
        } else {
            bracket_scan(t, end, Lex::Code, ok)
        }
    } else {
        let (j, m) = lex_step(t, i, lex);
        bracket_scan(t, j, m, ok)
    }
}

/// Span removed with a standalone block: its leading newline, trailing whitespace, the `.`
/// and the newline after it.
pub open spec fn block_removal(t: Seq<char>, s: int, e: int) -> (int, int) {
    let a = skip_ws(t, e);
    let re = if a < t.len() && t[a] == '.' {
        if a + 1 < t.len() && t[a + 1] == '\n' {
            a + 2
        } else {
            a + 1
        }
    } else {
        a
    };
    let rs = if s > 0 && t[s - 1] == '\n' {
        s - 1
    } else {
        s
    };
    (rs, re)
}

/// Remove the first standalone block accepted by `ok`.
pub open spec fn remove_block(t: Seq<char>, ok: spec_fn(Seq<char>) -> bool) -> Option<Seq<char>> {
    match bracket_scan(t, 0, Lex::Code, ok) {
        Some((s, e)) => {
            let (rs, re) = block_removal(t, s, e);
            Some(t.take(rs) + t.skip(re))
        },
        None => None,
    }
}

pub fn remove_block_exec(t: &[char], q: &BlockQuery) -> (r: Option<Vec<char>>)
    ensures
        match r {
            Some(v) => remove_block(t@, |b: Seq<char>| block_ok(b, *q)) == Some(v@),
            None => remove_block(t@, |b: Seq<char>| block_ok(b, *q)) is None,
        },
{
    let ghost ok = |b: Seq<char>| block_ok(b, *q);
    let mut i: usize = 0;
    let mut lex = Lex::Code;
    while i < t.len()
        invariant
            i <= t.len(),
            ok == (|b: Seq<char>| block_ok(b, *q)),
            bracket_scan(t@, 0, Lex::Code, ok) == bracket_scan(t@, i as int, lex, ok),
        decreases t.len() - i,
    {
        let mut handled = false;
        if lex == Lex::Code && t[i] == '[' {
            match bracket_end_exec(t, i) {
                Some(end) => {
                    let block = slice_chars(t, i, end);
                    if block_ok_exec(block.as_slice(), q) {
                        assert(ok(t@.subrange(i as int, end as int)));
                        let a = skip_ws_exec(t, end);
                        proof {
                            lemma_skip_ws_bounds(t@, end as int);
                        }
                        let re = if a < t.len() && t[a] == '.' {
                            if a + 1 < t.len() && t[a + 1] == '\n' {
                                a + 2
                            } else {
                                a + 1
                            }
                        } else {
                            a
                        };
                        let rs = if i > 0 && t[i - 1] == '\n' {
                            i - 1
                        } else {
                            i
                        };
                        let mut out = slice_chars(t, 0, rs);
                        let tail = slice_chars(t, re, t.len());
                        push_all(&mut out, tail.as_slice());
                        assert(out@ =~= t@.take(rs as int) + t@.skip(re as int));
                        return Some(out);
                    }
                    assert(!ok(t@.subrange(i as int, end as int)));
                    i = end;
                    lex = Lex::Code;
                    handled = true;
                },
                None => {},
            }
        }
        if !handled {
            let (j, m) = lex_step_exec(t, i, lex);
            i = j;
            lex = m;
        }
    }
    None
}

/// Negative property assertion block (`add_negative_*_property_assertion`).
pub open spec fn npa_block(source: Seq<char>, prop: Seq<char>, target_line: Seq<char>) -> Seq<char> {
    "[ rdf:type owl:NegativePropertyAssertion ;\n  owl:sourceIndividual "@ + source
        + " ;\n  owl:assertionProperty "@ + prop + " ;\n  "@ + target_line + "\n] .\n"@
}

/// Add a negative object property assertion block (`add_negative_object_property_assertion`).
pub open spec fn add_npa_object_spec(
    t: Seq<char>,
    ind: Seq<char>,
    prop: Seq<char>,
    target: Seq<char>,
    ns: Seq<(Seq<char>, Seq<char>)>,
) -> Outcome {
    match terms_for(seq![ind, prop, target], ns) {
        Err(e) => Err(e),
        Ok(ts) => Ok(add_block(t, npa_block(ts[0], ts[1], "owl:targetIndividual "@ + ts[2]))),
    }
}

/// Add a negative data property assertion block (`add_negative_data_property_assertion`).
pub open spec fn add_npa_data_spec(
    t: Seq<char>,
    ind: Seq<char>,
    prop: Seq<char>,
    value: Seq<char>,
    ns: Seq<(Seq<char>, Seq<char>)>,
) -> Outcome {
    match terms_for(seq![ind, prop], ns) {
        Err(e) => Err(e),
        Ok(ts) => Ok(
            add_block(t, npa_block(ts[0], ts[1], "owl:targetValue \""@ + escape_turtle(value) + "\""@)),
        ),
    }
}

/// Remove a negative property assertion block: the object form when `target` is given, the
/// data form with `value` otherwise.
pub open spec fn remove_npa_spec(
    t: Seq<char>,
    ind: Seq<char>,
    prop: Seq<char>,
    target: Option<Seq<char>>,
    value: Seq<char>,
    ns: Seq<(Seq<char>, Seq<char>)>,
) -> Outcome {
    let iris = match target {
        Some(x) => seq![ind, prop, x],
        None => seq![ind, prop],
    };
    match terms_for(iris, ns) {
        Err(e) => Err(e),
        Ok(ts) => match remove_block(
            t,
            |b: Seq<char>|
                npa_ok(
                    b,
                    ts[0],
                    ts[1],
                    if target is Some {
                        Some(ts[2])
                    } else {
                        None
                    },
                    if target is Some {
                        None
                    } else {
                        Some(value)
                    },
                ),
        ) {
            Some(n) => Ok(n),
            None => Err((ErrKind::ManchesterInvalid, "no matching NegativePropertyAssertion axiom"@)),
        },
    }
}

/// A copy of the characters.
pub fn copy_chars(s: &[char]) -> (r: Vec<char>)
    ensures
        r@ == s@,
{
    let v = slice_chars(s, 0, s.len());
    assert(v@ =~= s@);
    v
}

/// Rendered terms of several IRIs, or the first error.
pub fn terms_exec(iris: &Vec<Vec<char>>, ns: &Namespaces) -> (r: Result<Vec<Vec<char>>, OwlError>)
    ensures
        match terms_for(vviews(iris@), ns@) {
            Ok(ts) => r matches Ok(v) && vviews(v@) == ts,
            Err(e) => r matches Err(x) && err_of(x) == e,
        },
{
    let ghost all = vviews(iris@);
    let mut out: Vec<Vec<char>> = Vec::new();
    let mut k: usize = 0;
    assert(all.skip(0) =~= all);
    while k < iris.len()
        invariant
            k <= iris@.len(),
            all == vviews(iris@),
            terms_for(all, ns@) == match terms_for(all.skip(k as int), ns@) {
                Ok(rest) => Ok(vviews(out@) + rest),
                Err(e) => Err(e),
            },
        decreases iris@.len() - k,
    {
        assert(all.skip(k as int)[0] == iris@[k as int]@);
        assert(all.skip(k as int).drop_first() =~= all.skip(k + 1));
        match iri_to_turtle_term(iris[k].as_slice(), ns) {
            Err(e) => {
                return Err(e);
            },
            Ok(term) => {
                let ghost before = vviews(out@);
                out.push(term);
                assert(vviews(out@) =~= before.push(term@));
                assert forall|rest: Seq<Seq<char>>| #[trigger] (before + (seq![term@] + rest)) =~= vviews(out@) + rest by {}
            },
        }
        k += 1;
    }
    assert(all.skip(k as int) =~= Seq::<Seq<char>>::empty());
    assert(vviews(out@) + Seq::<Seq<char>>::empty() =~= vviews(out@));
    Ok(out)
}

fn npa_block_exec(source: &[char], prop: &[char], target_line: &[char]) -> (r: Vec<char>)
    ensures
        r@ == npa_block(source@, prop@, target_line@),
{
    let mut b = chars_of("[ rdf:type owl:NegativePropertyAssertion ;\n  owl:sourceIndividual ");
    push_all(&mut b, source);
    push_str(&mut b, " ;\n  owl:assertionProperty ");
    push_all(&mut b, prop);
    push_str(&mut b, " ;\n  ");
    push_all(&mut b, target_line);
    push_str(&mut b, "\n] .\n");
    b
}

pub fn add_npa_object_exec(t: &[char], ind: &[char], prop: &[char], target: &[char], ns: &Namespaces) -> (r: Result<
    Vec<char>,
    OwlError,
>)
    ensures
        outcome(r) == add_npa_object_spec(t@, ind@, prop@, target@, ns@),
{
    let mut iris: Vec<Vec<char>> = Vec::new();
    iris.push(copy_chars(ind));
    iris.push(copy_chars(prop));
    iris.push(copy_chars(target));
    assert(vviews(iris@) =~= seq![ind@, prop@, target@]);
    proof {
        crate::lists::lemma_terms_len(vviews(iris@), ns@);
    }
    let ts = match terms_exec(&iris, ns) {
        Err(e) => {
            return Err(e);
        },
        Ok(ts) => ts,
    };
    let mut line = chars_of("owl:targetIndividual ");
    push_all(&mut line, ts[2].as_slice());
    let b = npa_block_exec(ts[0].as_slice(), ts[1].as_slice(), line.as_slice());
    Ok(add_block_exec(t, b.as_slice()))
}

pub fn add_npa_data_exec(t: &[char], ind: &[char], prop: &[char], value: &[char], ns: &Namespaces) -> (r: Result<
    Vec<char>,
    OwlError,
>)
    ensures
        outcome(r) == add_npa_data_spec(t@, ind@, prop@, value@, ns@),
{
    let mut iris: Vec<Vec<char>> = Vec::new();
    iris.push(copy_chars(ind));
    iris.push(copy_chars(prop));
    assert(vviews(iris@) =~= seq![ind@, prop@]);
    proof {
        crate::lists::lemma_terms_len(vviews(iris@), ns@);
    }
    let ts = match terms_exec(&iris, ns) {
        Err(e) => {
            return Err(e);
        },
        Ok(ts) => ts,
    };
    let esc = escape_turtle_string(value);
    let mut line = chars_of("owl:targetValue \"");
    push_all(&mut line, esc.as_slice());
    push_str(&mut line, "\"");
    let b = npa_block_exec(ts[0].as_slice(), ts[1].as_slice(), line.as_slice());
    Ok(add_block_exec(t, b.as_slice()))
}

pub fn remove_npa_exec(
    t: &[char],
    ind: &[char],
    prop: &[char],
    target: Option<&[char]>,
    value: &[char],
    ns: &Namespaces,
) -> (r: Result<Vec<char>, OwlError>)
    ensures
        outcome(r) == remove_npa_spec(
            t@,
            ind@,
            prop@,
            match target {
                Some(x) => Some(x@),
                None => None,
            },
            value@,
            ns@,
        ),
{
    let mut iris: Vec<Vec<char>> = Vec::new();
    iris.push(copy_chars(ind));
    iris.push(copy_chars(prop));
    match target {
        Some(x) => {
            iris.push(copy_chars(x));
            assert(vviews(iris@) =~= seq![ind@, prop@, x@]);
        },
        None => {
            assert(vviews(iris@) =~= seq![ind@, prop@]);
        },
    }
    proof {
        crate::lists::lemma_terms_len(vviews(iris@), ns@);
    }
    let ts = match terms_exec(&iris, ns) {
        Err(e) => {
            return Err(e);
        },
        Ok(ts) => ts,
    };
    let ghost tv = vviews(ts@);
    let q = match target {
        Some(_) => BlockQuery::Npa {
            source: copy_chars(ts[0].as_slice()),
            prop: copy_chars(ts[1].as_slice()),
            target: Some(copy_chars(ts[2].as_slice())),
            value: None,
        },
        None => BlockQuery::Npa {
            source: copy_chars(ts[0].as_slice()),
            prop: copy_chars(ts[1].as_slice()),
            target: None,
            value: Some(copy_chars(value)),
        },
    };
    let ghost spec_ok = |b: Seq<char>|
        npa_ok(
            b,
            tv[0],
            tv[1],
            if target is Some {
                Some(tv[2])
            } else {
                None
            },
            if target is Some {
                None
            } else {
                Some(value@)
            },
        );
    assert((|b: Seq<char>| block_ok(b, q)) =~= spec_ok) by {
        assert(ts@[0]@ =~= tv[0]);
        assert(ts@[1]@ =~= tv[1]);
        if target is Some {
            assert(ts@[2]@ =~= tv[2]);
        }
    }
    match remove_block_exec(t, &q) {
        Some(n) => Ok(n),
        None => {
            let d = chars_of("no matching NegativePropertyAssertion axiom");
            Err(make_err(ErrKind::ManchesterInvalid, d.as_slice()))
        },
    }
}

/// Predicate annotated by an axiom annotation of kind `op` (`axiom_op_predicate`).
pub open spec fn axiom_op_pred(op: Seq<char>) -> Option<Seq<char>> {
    if op == "sub_class_of"@ {
        Some("rdfs:subClassOf"@)
    } else if op == "disjoint_with"@ || op == "disjoint_class"@ {
        Some("owl:disjointWith"@)
    } else if op == "equivalent_class"@ {
        Some("owl:equivalentClass"@)
    } else if op == "domain"@ {
        Some("rdfs:domain"@)
    } else if op == "range"@ {
        Some("rdfs:range"@)
    } else if op == "sub_object_property_of"@ || op == "sub_data_property_of"@ || op
        == "sub_property_of"@ {
        Some("rdfs:subPropertyOf"@)
    } else if op == "inverse_of"@ || op == "inverse_object_properties"@ {
        Some("owl:inverseOf"@)
    } else if op == "equivalent_property"@ || op == "equivalent_object_properties"@ || op
        == "equivalent_data_properties"@ {
        Some("owl:equivalentProperty"@)
    } else if op == "property_disjoint_with"@ || op == "disjoint_object_properties"@ || op
        == "disjoint_data_properties"@ {
        Some("owl:propertyDisjointWith"@)
    } else if op == "same_as"@ || op == "same_individual"@ {
        Some("owl:sameAs"@)
    } else if op == "different_from"@ || op == "different_individuals"@ {
        Some("owl:differentFrom"@)
    } else {
        None
    }
}

fn is(op: &[char], s: &str) -> (r: bool)
    ensures
        r == (op@ == s@),
{
    let c = chars_of(s);
    seq_eq(op, c.as_slice())
}

pub fn axiom_op_pred_exec(op: &[char]) -> (r: Option<Vec<char>>)
    ensures
        match r {
            Some(v) => axiom_op_pred(op@) == Some(v@),
            None => axiom_op_pred(op@) is None,
        },
{
    if is(op, "sub_class_of") {
        Some(chars_of("rdfs:subClassOf"))
    } else if is(op, "disjoint_with") || is(op, "disjoint_class") {
        Some(chars_of("owl:disjointWith"))
    } else if is(op, "equivalent_class") {
        Some(chars_of("owl:equivalentClass"))
    } else if is(op, "domain") {
        Some(chars_of("rdfs:domain"))
    } else if is(op, "range") {
        Some(chars_of("rdfs:range"))
    } else if is(op, "sub_object_property_of") || is(op, "sub_data_property_of") || is(op, "sub_property_of") {
        Some(chars_of("rdfs:subPropertyOf"))
    } else if is(op, "inverse_of") || is(op, "inverse_object_properties") {
        Some(chars_of("owl:inverseOf"))
    } else if is(op, "equivalent_property") || is(op, "equivalent_object_properties") || is(
        op,
        "equivalent_data_properties",
    ) {
        Some(chars_of("owl:equivalentProperty"))
    } else if is(op, "property_disjoint_with") || is(op, "disjoint_object_properties") || is(
        op,
        "disjoint_data_properties",
    ) {
        Some(chars_of("owl:propertyDisjointWith"))
    } else if is(op, "same_as") || is(op, "same_individual") {
        Some(chars_of("owl:sameAs"))
    } else if is(op, "different_from") || is(op, "different_individuals") {
        Some(chars_of("owl:differentFrom"))
    } else {
        None
    }
}

/// The common part of adding and removing an axiom annotation: annotated property, source
/// and target terms and annotation predicate term, or the first error.
pub open spec fn axiom_parts(
    op: Seq<char>,
    subject: Seq<char>,
    related: Option<Seq<char>>,
    pred: Seq<char>,
    ns: Seq<(Seq<char>, Seq<char>)>,
) -> Result<(Seq<char>, Seq<char>, Seq<char>, Seq<char>), (ErrKind, Seq<char>)> {
    match axiom_op_pred(op) {
        None => Err((ErrKind::PatchInvalid, "unsupported axiom_op for axiom annotation: "@ + op)),
        Some(ap) => if !safe_iri(subject) {
            Err((ErrKind::PatchInvalid, unsafe_iri_detail(subject)))
        } else {
            match related {
                None => Err(
                    (
                        ErrKind::PatchInvalid,
                        "axiom annotation requires related_iri for the annotated target"@,
                    ),
                ),
                Some(rel) => if !safe_iri(rel) {
                    Err((ErrKind::PatchInvalid, unsafe_iri_detail(rel)))
                } else {
                    match predicate_term(pred, ns) {
                        Err(e) => Err(e),
                        Ok(p) => Ok((ap, turtle_term(subject, ns), turtle_term(rel, ns), p)),
                    }
                },
            }
        },
    }
}

/// Axiom annotation block.
pub open spec fn axiom_block(
    ap: Seq<char>,
    source: Seq<char>,
    target: Seq<char>,
    pred: Seq<char>,
    value: Seq<char>,
) -> Seq<char> {
    "[ rdf:type owl:Axiom ;\n  owl:annotatedSource "@ + source + " ;\n  owl:annotatedProperty "@ + ap
        + " ;\n  owl:annotatedTarget "@ + target + " ;\n  "@ + pred + " "@ + value + "\n] .\n"@
}

/// Add an annotation on an axiom as an `owl:Axiom` block (`add_axiom_annotation`).
pub open spec fn add_axiom_annotation_spec(
    t: Seq<char>,
    op: Seq<char>,
    subject: Seq<char>,
    related: Option<Seq<char>>,
    pred: Seq<char>,
    value: Seq<char>,
    ns: Seq<(Seq<char>, Seq<char>)>,
) -> Outcome {
    match axiom_parts(op, subject, related, pred, ns) {
        Err(e) => Err(e),
        Ok((ap, source, target, p)) => match explicit_iri_term(value, ns) {
            Err(e) => Err(e),
            Ok(Some(obj)) => Ok(add_block(t, axiom_block(ap, source, target, p, obj))),
            Ok(None) => Ok(
                add_block(t, axiom_block(ap, source, target, p, "\""@ + escape_turtle(value) + "\""@)),
            ),
        },
    }
}

/// Remove the `owl:Axiom` block carrying exactly this annotation (`remove_axiom_annotation`).
pub open spec fn remove_axiom_annotation_spec(
    t: Seq<char>,
    op: Seq<char>,
    subject: Seq<char>,
    related: Option<Seq<char>>,
    pred: Seq<char>,
    value: Seq<char>,
    ns: Seq<(Seq<char>, Seq<char>)>,
) -> Outcome {
    match axiom_parts(op, subject, related, pred, ns) {
        Err(e) => Err(e),
        Ok((ap, source, target, p)) => match remove_block(
            t,
            |b: Seq<char>| ann_ok(b, source, ap, target, p, bare_value(value)),
        ) {
            Some(n) => Ok(n),
            None => Err((ErrKind::ManchesterInvalid, "no matching axiom annotation"@)),
        },
    }
}

fn axiom_parts_exec(op: &[char], subject: &[char], related: Option<&[char]>, pred: &[char], ns: &Namespaces) -> (r: Result<
    (Vec<char>, Vec<char>, Vec<char>, Vec<char>),
    OwlError,
>)
    ensures
        match axiom_parts(
            op@,
            subject@,
            match related {
                Some(x) => Some(x@),
                None => None,
            },
            pred@,
            ns@,
        ) {
            Ok((a, b, c, d)) => r matches Ok((w, x, y, z)) && w@ == a && x@ == b && y@ == c && z@ == d,
            Err(e) => r matches Err(x) && err_of(x) == e,
        },
{
    let ap = match axiom_op_pred_exec(op) {
        None => {
            let mut d = chars_of("unsupported axiom_op for axiom annotation: ");
            push_all(&mut d, op);
            return Err(make_err(ErrKind::PatchInvalid, d.as_slice()));
        },
        Some(ap) => ap,
    };
    let source = match iri_to_turtle_term(subject, ns) {
        Err(e) => {
            return Err(e);
        },
        Ok(s) => s,
    };
    let target = match related {
        None => {
            let d = chars_of("axiom annotation requires related_iri for the annotated target");
            return Err(make_err(ErrKind::PatchInvalid, d.as_slice()));
        },
        Some(rel) => match iri_to_turtle_term(rel, ns) {
            Err(e) => {
                return Err(e);
            },
            Ok(x) => x,
        },
    };
    match predicate_term_exec(pred, ns) {
        Err(e) => Err(e),
        Ok(p) => Ok((ap, source, target, p)),
    }
}

fn axiom_block_exec(ap: &[char], source: &[char], target: &[char], pred: &[char], value: &[char]) -> (r: Vec<char>)
    ensures
        r@ == axiom_block(ap@, source@, target@, pred@, value@),
{
    let mut b = chars_of("[ rdf:type owl:Axiom ;\n  owl:annotatedSource ");
    push_all(&mut b, source);
    push_str(&mut b, " ;\n  owl:annotatedProperty ");
    push_all(&mut b, ap);
    push_str(&mut b, " ;\n  owl:annotatedTarget ");
    push_all(&mut b, target);
    push_str(&mut b, " ;\n  ");
    push_all(&mut b, pred);
    push_str(&mut b, " ");
    push_all(&mut b, value);
    push_str(&mut b, "\n] .\n");
    b
}

pub fn add_axiom_annotation_exec(
    t: &[char],
    op: &[char],
    subject: &[char],
    related: Option<&[char]>,
    pred: &[char],
    value: &[char],
    ns: &Namespaces,
) -> (r: Result<Vec<char>, OwlError>)
    ensures
        outcome(r) == add_axiom_annotation_spec(
            t@,
            op@,
            subject@,
            match related {
                Some(x) => Some(x@),
                None => None,
            },
            pred@,
            value@,
            ns@,
        ),
{
    let (ap, source, target, p) = match axiom_parts_exec(op, subject, related, pred, ns) {
        Err(e) => {
            return Err(e);
        },
        Ok(x) => x,
    };
    match explicit_iri_term_exec(value, ns) {
        Err(e) => Err(e),
        Ok(Some(obj)) => {
            let b = axiom_block_exec(ap.as_slice(), source.as_slice(), target.as_slice(), p.as_slice(), obj.as_slice());
            Ok(add_block_exec(t, b.as_slice()))
        },
        Ok(None) => {
            let esc = escape_turtle_string(value);
            let mut v = chars_of("\"");
            push_all(&mut v, esc.as_slice());
            push_str(&mut v, "\"");
            let b = axiom_block_exec(ap.as_slice(), source.as_slice(), target.as_slice(), p.as_slice(), v.as_slice());
            Ok(add_block_exec(t, b.as_slice()))
        },
    }
}

pub fn remove_axiom_annotation_exec(
    t: &[char],
    op: &[char],
    subject: &[char],
    related: Option<&[char]>,
    pred: &[char],
    value: &[char],
    ns: &Namespaces,
) -> (r: Result<Vec<char>, OwlError>)
    ensures
        outcome(r) == remove_axiom_annotation_spec(
            t@,
            op@,
            subject@,
            match related {
                Some(x) => Some(x@),
                None => None,
            },
            pred@,
            value@,
            ns@,
        ),
{
    let (ap, source, target, p) = match axiom_parts_exec(op, subject, related, pred, ns) {
        Err(e) => {
            return Err(e);
        },
        Ok(x) => x,
    };
    let a = trim_exec(value);
    let c = strip_both_exec(a.as_slice(), '"');
    let lexical = strip_both_exec(c.as_slice(), '\'');
    let ghost spec_ok = |b: Seq<char>| ann_ok(b, source@, ap@, target@, p@, bare_value(value@));
    let q = BlockQuery::Ann { source, property: ap, target, pred: p, lexical };
    assert((|b: Seq<char>| block_ok(b, q)) =~= spec_ok);
    match remove_block_exec(t, &q) {
        Some(n) => Ok(n),
        None => {
            let d = chars_of("no matching axiom annotation");
            Err(make_err(ErrKind::ManchesterInvalid, d.as_slice()))
        },
    }
}

} // verus!
