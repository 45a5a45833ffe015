//! Edits built on the statement-level primitives: type assertions, annotation values, IRI
//! lists, pairwise axioms.
use vstd::prelude::*;
use crate::block::{match_exec, match_from};
use crate::edit::{
    add_literal_exec, add_literal_spec, add_object_exec, add_object_spec, contains_entity,
    contains_entity_exec, insert_into_exec, insert_into_spec, nl_end, push_nl_end,
    remove_iri_object_exec, remove_iri_object_spec, remove_literal_exec, remove_literal_spec,
    remove_object_exec, remove_object_spec,
};
use crate::error::{err_of, make_err, outcome, ErrKind, OwlError, Outcome};
use crate::iri::{
    iri_to_turtle_term, is_valid_pn_local, is_valid_prefix_name, safe_iri, turtle_term,
    unsafe_iri_detail, valid_pn_local, valid_prefix_name,
};
use crate::literal::{normalize_ws, normalize_ws_exec};
use crate::namespaces::{lookup, Namespaces};
use crate::span::{namespaces_for, namespaces_for_chars, primary_block, primary_block_exec};
use crate::text::{
    chars_of, ends_with, ends_with_exec, eq_ignore_case, eq_ignore_case_exec,
    lemma_next_char_bounds, next_char, next_char_exec, push_all, push_str, seq_eq, slice_chars,
    trim, trim_exec,
};

verus! {

/// A statement block has `type_term` as an `a` / `rdf:type` object (`block_has_type_term`).
pub open spec fn block_has_type(b: Seq<char>, type_term: Seq<char>) -> bool {
    match_from(b, "a"@, 0, normalize_ws(trim(type_term)), 0) is Some || match_from(
        b,
        "rdf:type"@,
        0,
        normalize_ws(trim(type_term)),
        0,
    ) is Some
}

pub fn block_has_type_exec(b: &[char], type_term: &[char]) -> (r: bool)
    ensures
        r == block_has_type(b@, type_term@),
{
    let tt = trim_exec(type_term);
    let n = normalize_ws_exec(tt.as_slice());
    let a = chars_of("a");
    let rt = chars_of("rdf:type");
    match_exec(b, a.as_slice(), 0, n.as_slice()).is_some() || match_exec(
        b,
        rt.as_slice(),
        0,
        n.as_slice(),
    ).is_some()
}

/// Assert `iri a type_term` (`add_type_triple`): in its declaration block unless already
/// there, or as a new statement when it has no block.
pub open spec fn add_type_spec(
    t: Seq<char>,
    iri: Seq<char>,
    type_term: Seq<char>,
    ns: Seq<(Seq<char>, Seq<char>)>,
) -> Outcome {
    if !contains_entity(t, iri, ns) {
        Err((ErrKind::EntityNotFound, iri))
    } else if !safe_iri(iri) {
        Err((ErrKind::PatchInvalid, unsafe_iri_detail(iri)))
    } else {
        match primary_block(t, iri, namespaces_for(t, ns)) {
            Some((s, e)) => if block_has_type(t.subrange(s, e), type_term) {
                Ok(t)
            } else {
                insert_into_spec(t, iri, "    a "@ + type_term + " ;\n"@, ns, false)
            },
            None => Ok(nl_end(t) + "\n"@ + turtle_term(iri, ns) + " a "@ + type_term + " .\n"@),
        }
    }
}

pub fn add_type_exec(t: &[char], iri: &[char], type_term: &[char], ns: &Namespaces) -> (r: Result<
    Vec<char>,
    OwlError,
>)
    ensures
        outcome(r) == add_type_spec(t@, iri@, type_term@, ns@),
{
    if !contains_entity_exec(t, iri, ns) {
        return Err(make_err(ErrKind::EntityNotFound, iri));
    }
    let subject = match iri_to_turtle_term(iri, ns) {
        Ok(s) => s,
        Err(e) => {
            return Err(e);
        },
    };
    let ns2 = namespaces_for_chars(t, ns);
    match primary_block_exec(t, iri, &ns2) {
        Some((s, e)) => {
            let block = slice_chars(t, s, e);
            if block_has_type_exec(block.as_slice(), type_term) {
                let same = slice_chars(t, 0, t.len());
                assert(same@ =~= t@);
                return Ok(same);
            }
            let mut ins = chars_of("    a ");
            push_all(&mut ins, type_term);
            push_str(&mut ins, " ;\n");
            insert_into_exec(t, iri, ins.as_slice(), ns, false)
        },
        None => {
            let mut out = slice_chars(t, 0, t.len());
            assert(out@ =~= t@);
            push_nl_end(&mut out);
            push_str(&mut out, "\n");
            push_all(&mut out, subject.as_slice());
            push_str(&mut out, " a ");
            push_all(&mut out, type_term);
            push_str(&mut out, " .\n");
            Ok(out)
        },
    }
}

/// Result of trying `a` first, then `rdf:type`: the first outcome stands when it succeeded or
/// found no entity.
pub open spec fn first_of_two(r1: Outcome, r2: Outcome) -> Outcome {
    match r1 {
        Ok(_) => r1,
        Err((k, _)) => if k == ErrKind::EntityNotFound {
            r1
        } else {
            r2
        },
    }
}

/// Remove the type `type_iri` from `iri`, written with `a` or `rdf:type` (`remove_rdf_type_iri`).
pub open spec fn remove_type_iri_spec(
    t: Seq<char>,
    iri: Seq<char>,
    type_iri: Seq<char>,
    ns: Seq<(Seq<char>, Seq<char>)>,
) -> Outcome {
    first_of_two(
        remove_iri_object_spec(t, iri, "a"@, type_iri, ns),
        remove_iri_object_spec(t, iri, "rdf:type"@, type_iri, ns),
    )
}

fn stands_first(r: &Result<Vec<char>, OwlError>) -> (b: bool)
    ensures
        b == match outcome(*r) {
            Ok(_) => true,
            Err((k, _)) => k == ErrKind::EntityNotFound,
        },
{
    match r {
        Ok(_) => true,
        Err(OwlError::EntityNotFound(_)) => true,
        Err(_) => false,
    }
}

pub fn remove_type_iri_exec(t: &[char], iri: &[char], type_iri: &[char], ns: &Namespaces) -> (r: Result<
    Vec<char>,
    OwlError,
>)
    ensures
        outcome(r) == remove_type_iri_spec(t@, iri@, type_iri@, ns@),
{
    let a = chars_of("a");
    let r1 = remove_iri_object_exec(t, iri, a.as_slice(), type_iri, ns);
    if stands_first(&r1) {
        return r1;
    }
    let rt = chars_of("rdf:type");
    remove_iri_object_exec(t, iri, rt.as_slice(), type_iri, ns)
}

/// Remove a type term from `iri` (`remove_type_triple`): a CURIE with a known prefix or an
/// `<IRI>` is matched in all spellings, any other term textually.
pub open spec fn remove_type_spec(
    t: Seq<char>,
    iri: Seq<char>,
    tt: Seq<char>,
    ns: Seq<(Seq<char>, Seq<char>)>,
) -> Outcome {
    let ns2 = namespaces_for(t, ns);
    let c = next_char(tt, 0, ':');
    if 0 < c < tt.len() && lookup(ns2, tt.take(c)) is Some {
        remove_type_iri_spec(t, iri, lookup(ns2, tt.take(c))->Some_0 + tt.skip(c + 1), ns)
    } else if tt.len() >= 2 && tt[0] == '<' && tt.last() == '>' {
        remove_type_iri_spec(t, iri, tt.subrange(1, tt.len() - 1), ns)
    } else {
        first_of_two(
            remove_object_spec(t, iri, "a"@, tt, ns),
            remove_object_spec(t, iri, "rdf:type"@, tt, ns),
        )
    }
}

pub fn remove_type_exec(t: &[char], iri: &[char], tt: &[char], ns: &Namespaces) -> (r: Result<
    Vec<char>,
    OwlError,
>)
    ensures
        outcome(r) == remove_type_spec(t@, iri@, tt@, ns@),
{
    let ns2 = namespaces_for_chars(t, ns);
    let c = next_char_exec(tt, 0, ':');
    proof {
        lemma_next_char_bounds(tt@, 0, ':');
    }
    if 0 < c && c < tt.len() {
        let p = slice_chars(tt, 0, c);
        match ns2.get_chars(p.as_slice()) {
            Some(base) => {
                let mut full = slice_chars(base.as_slice(), 0, base.len());
                let local = slice_chars(tt, c + 1, tt.len());
                push_all(&mut full, local.as_slice());
                assert(full@ =~= base@ + tt@.skip(c + 1));
                return remove_type_iri_exec(t, iri, full.as_slice(), ns);
            },
            None => {},
        }
    }
    if tt.len() >= 2 && tt[0] == '<' && tt[tt.len() - 1] == '>' {
        let inner = slice_chars(tt, 1, tt.len() - 1);
        return remove_type_iri_exec(t, iri, inner.as_slice(), ns);
    }
    let a = chars_of("a");
    let r1 = remove_object_exec(t, iri, a.as_slice(), tt, ns);
    if stands_first(&r1) {
        return r1;
    }
    let rt = chars_of("rdf:type");
    remove_object_exec(t, iri, rt.as_slice(), tt, ns)
}

/// Set or clear a property characteristic type (`set_property_characteristic`).
pub open spec fn set_characteristic_spec(
    t: Seq<char>,
    iri: Seq<char>,
    tt: Seq<char>,
    value: bool,
    ns: Seq<(Seq<char>, Seq<char>)>,
) -> Outcome {
    if value {
        add_type_spec(t, iri, tt, ns)
    } else {
        remove_type_spec(t, iri, tt, ns)
    }
}

pub fn set_characteristic_exec(t: &[char], iri: &[char], tt: &str, value: bool, ns: &Namespaces) -> (r: Result<
    Vec<char>,
    OwlError,
>)
    ensures
        outcome(r) == set_characteristic_spec(t@, iri@, tt@, value, ns@),
{
    let term = chars_of(tt);
    if value {
        add_type_exec(t, iri, term.as_slice(), ns)
    } else {
        remove_type_exec(t, iri, term.as_slice(), ns)
    }
}

/// `term` is a CURIE with a declared prefix and a safe local name (`known_curie_term`).
pub open spec fn known_curie(term: Seq<char>, ns: Seq<(Seq<char>, Seq<char>)>) -> bool {
    let c = next_char(term, 0, ':');
    c < term.len() && {
        let p = term.take(c);
        let l = term.skip(c + 1);
        &&& p.len() > 0
        &&& l.len() > 0
        &&& !eq_ignore_case(p, "http"@)
        &&& !eq_ignore_case(p, "https"@)
        &&& lookup(ns, p) is Some
        &&& valid_prefix_name(p)
        &&& valid_pn_local(l)
    }
}

pub fn known_curie_exec(term: &[char], ns: &Namespaces) -> (r: bool)
    ensures
        r == known_curie(term@, ns@),
{
    let c = next_char_exec(term, 0, ':');
    proof {
        lemma_next_char_bounds(term@, 0, ':');
    }
    if c >= term.len() {
        return false;
    }
    let p = slice_chars(term, 0, c);
    let l = slice_chars(term, c + 1, term.len());
    let http = chars_of("http");
    let https = chars_of("https");
    p.len() > 0 && l.len() > 0 && !eq_ignore_case_exec(p.as_slice(), http.as_slice())
        && !eq_ignore_case_exec(p.as_slice(), https.as_slice()) && ns.get_chars(p.as_slice()).is_some()
        && is_valid_prefix_name(p.as_slice()) && is_valid_pn_local(l.as_slice())
}

/// Term written for an annotation predicate (`predicate_to_term`).
pub open spec fn predicate_term(pred: Seq<char>, ns: Seq<(Seq<char>, Seq<char>)>) -> Outcome {
    if known_curie(pred, ns) {
        Ok(pred)
    } else if !safe_iri(pred) {
        Err((ErrKind::PatchInvalid, unsafe_iri_detail(pred)))
    } else {
        Ok(turtle_term(pred, ns))
    }
}

pub fn predicate_term_exec(pred: &[char], ns: &Namespaces) -> (r: Result<Vec<char>, OwlError>)
    ensures
        outcome(r) == predicate_term(pred@, ns@),
{
    if known_curie_exec(pred, ns) {
        let v = slice_chars(pred, 0, pred.len());
        assert(v@ =~= pred@);
        return Ok(v);
    }
    iri_to_turtle_term(pred, ns)
}

/// IRI object written for an annotation value, if the value is marked as an IRI (`<iri>`) or
/// is a known CURIE (`explicit_iri_annotation_term`).
pub open spec fn explicit_iri_term(value: Seq<char>, ns: Seq<(Seq<char>, Seq<char>)>) -> Result<
    Option<Seq<char>>,
    (ErrKind, Seq<char>),
> {
    let tr = trim(value);
    if tr.len() >= 2 && tr[0] == '<' && tr.last() == '>' {
        let inner = trim(tr.subrange(1, tr.len() - 1));
        if inner.len() == 0 {
            Err((ErrKind::PatchInvalid, "empty IRI in annotation value <>"@))
        } else if !safe_iri(inner) {
            Err((ErrKind::PatchInvalid, unsafe_iri_detail(inner)))
        } else {
            Ok(Some(turtle_term(inner, ns)))
        }
    } else if known_curie(tr, ns) {
        Ok(Some(tr))
    } else {
        Ok(None)
    }
}

pub fn explicit_iri_term_exec(value: &[char], ns: &Namespaces) -> (r: Result<Option<Vec<char>>, OwlError>)
    ensures
        match r {
            Ok(Some(v)) => explicit_iri_term(value@, ns@) == Ok::<Option<Seq<char>>, (ErrKind, Seq<char>)>(Some(v@)),
            Ok(None) => explicit_iri_term(value@, ns@) == Ok::<Option<Seq<char>>, (ErrKind, Seq<char>)>(None),
            Err(e) => explicit_iri_term(value@, ns@) == Err::<Option<Seq<char>>, (ErrKind, Seq<char>)>(err_of(e)),
        },
{
    let tr = trim_exec(value);
    let n = tr.len();
    if n >= 2 && tr[0] == '<' && tr[n - 1] == '>' {
        let mid = slice_chars(tr.as_slice(), 1, n - 1);
        let inner = trim_exec(mid.as_slice());
        if inner.len() == 0 {
            let d = chars_of("empty IRI in annotation value <>");
            return Err(make_err(ErrKind::PatchInvalid, d.as_slice()));
        }
        return match iri_to_turtle_term(inner.as_slice(), ns) {
            Ok(term) => Ok(Some(term)),
            Err(e) => Err(e),
        };
    }
    if known_curie_exec(tr.as_slice(), ns) {
        return Ok(Some(tr));
    }
    Ok(None)
}

/// `pred` names `rdfs:label`.
pub open spec fn is_label_pred(p: Seq<char>) -> bool {
    p == "rdfs:label"@ || ends_with(p, "#label"@)
}

/// `pred` names `rdfs:comment`.
pub open spec fn is_comment_pred(p: Seq<char>) -> bool {
    p == "rdfs:comment"@ || ends_with(p, "#comment"@)
}

/// Add an annotation value (`add_annotation_value`): labels and comments as literals, IRI
/// values as objects, anything else as a literal.
pub open spec fn add_annotation_spec(
    t: Seq<char>,
    iri: Seq<char>,
    pred: Seq<char>,
    value: Seq<char>,
    ns: Seq<(Seq<char>, Seq<char>)>,
) -> Outcome {
    if is_label_pred(pred) {
        add_literal_spec(t, iri, "rdfs:label"@, value, ns, true)
    } else if is_comment_pred(pred) {
        add_literal_spec(t, iri, "rdfs:comment"@, value, ns, true)
    } else {
        match explicit_iri_term(value, ns) {
            Err(e) => Err(e),
            Ok(Some(obj)) => match predicate_term(pred, ns) {
                Err(e) => Err(e),
                Ok(p) => add_object_spec(t, iri, p, obj, ns),
            },
            Ok(None) => match predicate_term(pred, ns) {
                Err(e) => Err(e),
                Ok(p) => add_literal_spec(t, iri, p, value, ns, true),
            },
        }
    }
}

/// Remove an annotation value (`remove_annotation_value`), mirroring `add_annotation_spec`.
pub open spec fn remove_annotation_spec(
    t: Seq<char>,
    iri: Seq<char>,
    pred: Seq<char>,
    value: Seq<char>,
    ns: Seq<(Seq<char>, Seq<char>)>,
) -> Outcome {
    if is_label_pred(pred) {
        remove_literal_spec(t, iri, "rdfs:label"@, value, ns)
    } else if is_comment_pred(pred) {
        remove_literal_spec(t, iri, "rdfs:comment"@, value, ns)
    } else {
        match explicit_iri_term(value, ns) {
            Err(e) => Err(e),
            Ok(Some(obj)) => match predicate_term(pred, ns) {
                Err(e) => Err(e),
                Ok(p) => remove_object_spec(t, iri, p, obj, ns),
            },
            Ok(None) => match predicate_term(pred, ns) {
                Err(e) => Err(e),
                Ok(p) => remove_literal_spec(t, iri, p, value, ns),
            },
        }
    }
}

fn is_label_pred_exec(p: &[char]) -> (r: bool)
    ensures
        r == is_label_pred(p@),
{
    let a = chars_of("rdfs:label");
    let b = chars_of("#label");
    seq_eq(p, a.as_slice()) || ends_with_exec(p, b.as_slice())
}

fn is_comment_pred_exec(p: &[char]) -> (r: bool)
    ensures
        r == is_comment_pred(p@),
{
    let a = chars_of("rdfs:comment");
    let b = chars_of("#comment");
    seq_eq(p, a.as_slice()) || ends_with_exec(p, b.as_slice())
}

pub fn add_annotation_exec(t: &[char], iri: &[char], pred: &[char], value: &[char], ns: &Namespaces) -> (r: Result<
    Vec<char>,
    OwlError,
>)
    ensures
        outcome(r) == add_annotation_spec(t@, iri@, pred@, value@, ns@),
{
    if is_label_pred_exec(pred) {
        let l = chars_of("rdfs:label");
        return add_literal_exec(t, iri, l.as_slice(), value, ns, true);
    }
    if is_comment_pred_exec(pred) {
        let c = chars_of("rdfs:comment");
        return add_literal_exec(t, iri, c.as_slice(), value, ns, true);
    }
    match explicit_iri_term_exec(value, ns) {
        Err(e) => Err(e),
        Ok(Some(obj)) => match predicate_term_exec(pred, ns) {
            Err(e) => Err(e),
            Ok(p) => add_object_exec(t, iri, p.as_slice(), obj.as_slice(), ns),
        },
        Ok(None) => match predicate_term_exec(pred, ns) {
            Err(e) => Err(e),
            Ok(p) => add_literal_exec(t, iri, p.as_slice(), value, ns, true),
        },
    }
}

pub fn remove_annotation_exec(t: &[char], iri: &[char], pred: &[char], value: &[char], ns: &Namespaces) -> (r: Result<
    Vec<char>,
    OwlError,
>)
    ensures
        outcome(r) == remove_annotation_spec(t@, iri@, pred@, value@, ns@),
{
    if is_label_pred_exec(pred) {
        let l = chars_of("rdfs:label");
        return remove_literal_exec(t, iri, l.as_slice(), value, ns);
    }
    if is_comment_pred_exec(pred) {
        let c = chars_of("rdfs:comment");
        return remove_literal_exec(t, iri, c.as_slice(), value, ns);
    }
    match explicit_iri_term_exec(value, ns) {
        Err(e) => Err(e),
        Ok(Some(obj)) => match predicate_term_exec(pred, ns) {
            Err(e) => Err(e),
            Ok(p) => remove_object_exec(t, iri, p.as_slice(), obj.as_slice(), ns),
        },
        Ok(None) => match predicate_term_exec(pred, ns) {
            Err(e) => Err(e),
            Ok(p) => remove_literal_exec(t, iri, p.as_slice(), value, ns),
        },
    }
}

} // verus!
