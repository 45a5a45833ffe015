//! IRI-list axioms (`owl:propertyChainAxiom`, `owl:hasKey`, `owl:disjointUnionOf`) and
//! pairwise axioms between properties or individuals.
use vstd::prelude::*;
use crate::block::{cleanup, cleanup_exec, removal_span, splice};
use crate::edit::{
    add_object_exec, add_object_spec, contains_entity, contains_entity_exec, remove_iri_object_exec,
    remove_iri_object_spec, remove_object_exec, remove_object_spec, replace_range,
    replace_range_exec,
};
use crate::error::{err_of, make_err, outcome, ErrKind, OwlError, Outcome};
use crate::iri::{iri_to_turtle_term, safe_iri, turtle_term, unsafe_iri_detail};
use crate::lex::{find_predicate_token, find_predicate_token_exec, lemma_pred_token_range, token_match, Lex};
use crate::block::{objects_exec, objects_from};
use crate::namespaces::{lookup, Namespaces};
use crate::ops::{block_has_type, block_has_type_exec};
use crate::span::{entity_ranges, entity_ranges_exec, namespaces_for, namespaces_for_chars, pairs_int};
use crate::text::{
    ascii_ws, chars_of, is_ascii_ws, lemma_next_char_bounds, next_char, next_char_exec, push_all,
    push_str, seq_eq, slice_chars, trim, trim_exec,
};

verus! {

/// Terms written for a list of IRIs, or the error for the first unsafe one.
pub open spec fn terms_for(iris: Seq<Seq<char>>, ns: Seq<(Seq<char>, Seq<char>)>) -> Result<
    Seq<Seq<char>>,
    (ErrKind, Seq<char>),
>
    decreases iris.len(),
{
    if iris.len() == 0 {
        Ok(Seq::empty())
    } else if !safe_iri(iris[0]) {
        Err((ErrKind::PatchInvalid, unsafe_iri_detail(iris[0])))
    } else {
        match terms_for(iris.drop_first(), ns) {
            Ok(rest) => Ok(seq![turtle_term(iris[0], ns)] + rest),
            Err(e) => Err(e),
        }
    }
}

pub proof fn lemma_terms_len(iris: Seq<Seq<char>>, ns: Seq<(Seq<char>, Seq<char>)>)
    ensures
        terms_for(iris, ns) matches Ok(ts) ==> ts.len() == iris.len(),
    decreases iris.len(),
{
    if iris.len() > 0 {
        lemma_terms_len(iris.drop_first(), ns);
    }
}

/// Words joined by single spaces.
pub open spec fn join_words(ws: Seq<Seq<char>>) -> Seq<char>
    decreases ws.len(),
{
    if ws.len() == 0 {
        Seq::empty()
    } else if ws.len() == 1 {
        ws[0]
    } else {
        join_words(ws.drop_last()) + " "@ + ws.last()
    }
}

/// Turtle collection `( t1 t2 … )`.
pub open spec fn list_obj(ts: Seq<Seq<char>>) -> Seq<char> {
    "( "@ + join_words(ts) + " )"@
}

pub open spec fn vviews(v: Seq<Vec<char>>) -> Seq<Seq<char>> {
    v.map_values(|w: Vec<char>| w@)
}

/// The list object for `iris`, or the first unsafe IRI's error.
pub fn list_obj_exec(iris: &Vec<Vec<char>>, ns: &Namespaces) -> (r: Result<Vec<char>, OwlError>)
    ensures
        match terms_for(vviews(iris@), ns@) {
            Ok(ts) => r matches Ok(v) && v@ == list_obj(ts),
            Err(e) => r matches Err(x) && err_of(x) == e,
        },
{
    let ghost all = vviews(iris@);
    let mut joined: Vec<char> = Vec::new();
    let mut k: usize = 0;
    let ghost done_terms: Seq<Seq<char>> = Seq::empty();
    assert(all.skip(0) =~= all);
    while k < iris.len()
        invariant
            k <= iris@.len(),
            all == vviews(iris@),
            terms_for(all, ns@) == match terms_for(all.skip(k as int), ns@) {
                Ok(rest) => Ok(done_terms + rest),
                Err(e) => Err(e),
            },
            done_terms.len() == k,
            joined@ == join_words(done_terms),
        decreases iris@.len() - k,
    {
        assert(all.skip(k as int)[0] == iris@[k as int]@);
        assert(all.skip(k as int).drop_first() =~= all.skip(k + 1));
        match iri_to_turtle_term(iris[k].as_slice(), ns) {
            Err(e) => {
                return Err(e);
            },
            Ok(term) => {
                let ghost prev = done_terms;
                if k > 0 {
                    joined.push(' ');
                }
                push_all(&mut joined, term.as_slice());
                proof {
                    reveal_strlit(" ");
                    done_terms = prev.push(term@);
                    assert(done_terms.drop_last() =~= prev);
                    if k == 0 {
                        assert(done_terms =~= seq![term@]);
                    }
                    assert(joined@ =~= join_words(done_terms));
                    assert forall|rest: Seq<Seq<char>>| #[trigger] (prev + (seq![term@] + rest)) =~= done_terms + rest by {}
                }
                k += 1;
            },
        }
    }
    assert(all.skip(k as int) =~= Seq::<Seq<char>>::empty());
    assert(done_terms + Seq::<Seq<char>>::empty() =~= done_terms);
    let mut out = chars_of("( ");
    push_all(&mut out, joined.as_slice());
    push_str(&mut out, " )");
    Ok(out)
}

/// The IRIs of a list of strings, as characters.
pub fn char_lists(v: &Vec<String>) -> (r: Vec<Vec<char>>)
    ensures
        vviews(r@) == v@.map_values(|s: String| s@),
{
    let mut out: Vec<Vec<char>> = Vec::new();
    let mut k: usize = 0;
    while k < v.len()
        invariant
            k <= v@.len(),
            vviews(out@) =~= v@.map_values(|s: String| s@).take(k as int),
        decreases v@.len() - k,
    {
        out.push(chars_of(v[k].as_str()));
        assert(v@.map_values(|s: String| s@).take(k + 1) =~= v@.map_values(|s: String| s@).take(
            k as int,
        ).push(v@[k as int]@));
        k += 1;
    }
    assert(v@.map_values(|s: String| s@).take(k as int) =~= v@.map_values(|s: String| s@));
    out
}

/// `iri` has a statement declaring type `ty`, written as a CURIE or as the expanded `<IRI>`
/// (`entity_declared_as`).
pub open spec fn declared_as(
    t: Seq<char>,
    iri: Seq<char>,
    ty: Seq<char>,
    ns: Seq<(Seq<char>, Seq<char>)>,
) -> bool {
    let ns2 = namespaces_for(t, ns);
    let ranges = entity_ranges(t, iri, ns2);
    let c = next_char(ty, 0, ':');
    contains_entity(t, iri, ns) && exists|k: int|
        0 <= k < ranges.len() && (block_has_type(
            t.subrange((#[trigger] ranges[k]).0, ranges[k].1),
            ty,
        ) || (c < ty.len() && lookup(ns2, ty.take(c)) is Some && block_has_type(
            t.subrange(ranges[k].0, ranges[k].1),
            "<"@ + lookup(ns2, ty.take(c))->Some_0 + ty.skip(c + 1) + ">"@,
        )))
}

pub fn declared_as_exec(t: &[char], iri: &[char], ty: &[char], ns: &Namespaces) -> (r: bool)
    ensures
        r == declared_as(t@, iri@, ty@, ns@),
{
    if !contains_entity_exec(t, iri, ns) {
        return false;
    }
    let ns2 = namespaces_for_chars(t, ns);
    let ranges = entity_ranges_exec(t, iri, &ns2);
    let c = next_char_exec(ty, 0, ':');
    proof {
        lemma_next_char_bounds(ty@, 0, ':');
    }
    let mut abs: Option<Vec<char>> = None;
    if c < ty.len() {
        let p = slice_chars(ty, 0, c);
        match ns2.get_chars(p.as_slice()) {
            Some(base) => {
                let mut a = chars_of("<");
                push_all(&mut a, base.as_slice());
                let local = slice_chars(ty, c + 1, ty.len());
                push_all(&mut a, local.as_slice());
                push_str(&mut a, ">");
                abs = Some(a);
            },
            None => {},
        }
    }
    let ghost rs = pairs_int(ranges@);
    let ghost ns2v = namespaces_for(t@, ns@);
    let mut k: usize = 0;
    while k < ranges.len()
        invariant
            k <= ranges@.len(),
            rs == pairs_int(ranges@),
            ns2v == ns2@,
            ns2v == namespaces_for(t@, ns@),
            rs == entity_ranges(t@, iri@, ns2v),
            contains_entity(t@, iri@, ns@),
            c as int == next_char(ty@, 0, ':'),
            match abs {
                Some(a) => c < ty@.len() && lookup(ns2v, ty@.take(c as int)) is Some && a@ == "<"@
                    + lookup(ns2v, ty@.take(c as int))->Some_0 + ty@.skip(c + 1) + ">"@,
                None => !(c < ty@.len() && lookup(ns2v, ty@.take(c as int)) is Some),
            },
            forall|j: int| 0 <= j < ranges@.len() ==> (#[trigger] ranges@[j]).0 < ranges@[j].1 <= t.len(),
            forall|j: int|
                0 <= j < k ==> !(block_has_type(t@.subrange((#[trigger] rs[j]).0, rs[j].1), ty@) || (c
                    < ty@.len() && lookup(ns2v, ty@.take(c as int)) is Some && block_has_type(
                    t@.subrange(rs[j].0, rs[j].1),
                    "<"@ + lookup(ns2v, ty@.take(c as int))->Some_0 + ty@.skip(c + 1) + ">"@,
                ))),
        decreases ranges@.len() - k,
    {
        let (s, e) = ranges[k];
        assert(rs[k as int] == (s as int, e as int));
        let block = slice_chars(t, s, e);
        let hit = block_has_type_exec(block.as_slice(), ty) || match &abs {
            Some(a) => block_has_type_exec(block.as_slice(), a.as_slice()),
            None => false,
        };
        assert(block@ == t@.subrange(rs[k as int].0, rs[k as int].1));
        if hit {
            assert(entity_ranges(t@, iri@, namespaces_for(t@, ns@))[k as int] == rs[k as int]);
            assert(0 <= k < rs.len() && (block_has_type(t@.subrange(rs[k as int].0, rs[k as int].1), ty@) || (c
                < ty@.len() && lookup(ns2v, ty@.take(c as int)) is Some && block_has_type(
                t@.subrange(rs[k as int].0, rs[k as int].1),
                "<"@ + lookup(ns2v, ty@.take(c as int))->Some_0 + ty@.skip(c + 1) + ">"@,
            ))));
            return true;
        }
        k += 1;
    }
    false
}

/// Types a property-chain member must not be declared with.
pub open spec fn chain_bad_types() -> Seq<Seq<char>> {
    seq!["owl:Class"@, "owl:NamedIndividual"@, "owl:DatatypeProperty"@, "owl:AnnotationProperty"@]
}

/// First (member, type) pair in order for which the member is declared with a bad type.
pub open spec fn chain_violation_from(
    t: Seq<char>,
    props: Seq<Seq<char>>,
    ns: Seq<(Seq<char>, Seq<char>)>,
    i: int,
    j: int,
) -> Option<(int, int)>
    decreases props.len() - i, 4 - j,
{
    if i < 0 || i >= props.len() || j < 0 {
        None
    } else if j >= 4 {
        chain_violation_from(t, props, ns, i + 1, 0)
    } else if declared_as(t, props[i], chain_bad_types()[j], ns) {
        Some((i, j))
    } else {
        chain_violation_from(t, props, ns, i, j + 1)
    }
}

/// Detail of the property-chain member error.
pub open spec fn chain_error(m: Seq<char>, ty: Seq<char>) -> Seq<char> {
    "property chain member "@ + m + " is declared as "@ + ty + ", expected owl:ObjectProperty"@
}

fn bad_type(j: usize) -> (r: Vec<char>)
    requires
        j < 4,
    ensures
        r@ == chain_bad_types()[j as int],
{
    if j == 0 {
        chars_of("owl:Class")
    } else if j == 1 {
        chars_of("owl:NamedIndividual")
    } else if j == 2 {
        chars_of("owl:DatatypeProperty")
    } else {
        chars_of("owl:AnnotationProperty")
    }
}

fn chain_violation_exec(t: &[char], props: &Vec<Vec<char>>, ns: &Namespaces) -> (r: Option<(usize, usize)>)
    ensures
        match r {
            Some((i, j)) => chain_violation_from(t@, vviews(props@), ns@, 0, 0) == Some(
                (i as int, j as int),
            ) && i < props@.len() && j < 4,
            None => chain_violation_from(t@, vviews(props@), ns@, 0, 0) is None,
        },
{
    let ghost pv = vviews(props@);
    let mut i: usize = 0;
    while i < props.len()
        invariant
            i <= props@.len(),
            pv == vviews(props@),
            chain_violation_from(t@, pv, ns@, 0, 0) == chain_violation_from(t@, pv, ns@, i as int, 0),
        decreases props@.len() - i,
    {
        let mut j: usize = 0;
        while j < 4
            invariant
                j <= 4,
                i < props@.len(),
                pv == vviews(props@),
                chain_violation_from(t@, pv, ns@, 0, 0) == chain_violation_from(
                    t@,
                    pv,
                    ns@,
                    i as int,
                    j as int,
                ),
            decreases 4 - j,
        {
            let ty = bad_type(j);
            assert(pv[i as int] == props@[i as int]@);
            if declared_as_exec(t, props[i].as_slice(), ty.as_slice(), ns) {
                return Some((i, j));
            }
            j += 1;
        }
        i += 1;
    }
    None
}

/// Add `owl:propertyChainAxiom ( … )` to a property (`add_property_chain`).
pub open spec fn add_chain_spec(
    t: Seq<char>,
    iri: Seq<char>,
    props: Seq<Seq<char>>,
    ns: Seq<(Seq<char>, Seq<char>)>,
) -> Outcome {
    if props.len() == 0 {
        Err((ErrKind::PatchInvalid, "property chain must have at least one property"@))
    } else {
        match chain_violation_from(t, props, ns, 0, 0) {
            Some((i, j)) => Err((ErrKind::PatchInvalid, chain_error(props[i], chain_bad_types()[j]))),
            None => match terms_for(props, ns) {
                Err(e) => Err(e),
                Ok(ts) => add_object_spec(t, iri, "owl:propertyChainAxiom"@, list_obj(ts), ns),
            },
        }
    }
}

pub fn add_chain_exec(t: &[char], iri: &[char], props: &Vec<Vec<char>>, ns: &Namespaces) -> (r: Result<
    Vec<char>,
    OwlError,
>)
    ensures
        outcome(r) == add_chain_spec(t@, iri@, vviews(props@), ns@),
{
    if props.len() == 0 {
        let d = chars_of("property chain must have at least one property");
        return Err(make_err(ErrKind::PatchInvalid, d.as_slice()));
    }
    match chain_violation_exec(t, props, ns) {
        Some((i, j)) => {
            let ty = bad_type(j);
            let mut d = chars_of("property chain member ");
            push_all(&mut d, props[i].as_slice());
            push_str(&mut d, " is declared as ");
            push_all(&mut d, ty.as_slice());
            push_str(&mut d, ", expected owl:ObjectProperty");
            assert(vviews(props@)[i as int] == props@[i as int]@);
            return Err(make_err(ErrKind::PatchInvalid, d.as_slice()));
        },
        None => {},
    }
    match list_obj_exec(props, ns) {
        Err(e) => Err(e),
        Ok(obj) => {
            let p = chars_of("owl:propertyChainAxiom");
            add_object_exec(t, iri, p.as_slice(), obj.as_slice(), ns)
        },
    }
}

/// Remove `owl:propertyChainAxiom ( … )` written in this member order (`remove_property_chain`).
pub open spec fn remove_chain_spec(
    t: Seq<char>,
    iri: Seq<char>,
    props: Seq<Seq<char>>,
    ns: Seq<(Seq<char>, Seq<char>)>,
) -> Outcome {
    match terms_for(props, ns) {
        Err(e) => Err(e),
        Ok(ts) => remove_object_spec(t, iri, "owl:propertyChainAxiom"@, list_obj(ts), ns),
    }
}

pub fn remove_chain_exec(t: &[char], iri: &[char], props: &Vec<Vec<char>>, ns: &Namespaces) -> (r: Result<
    Vec<char>,
    OwlError,
>)
    ensures
        outcome(r) == remove_chain_spec(t@, iri@, vviews(props@), ns@),
{
    match list_obj_exec(props, ns) {
        Err(e) => Err(e),
        Ok(obj) => {
            let p = chars_of("owl:propertyChainAxiom");
            remove_object_exec(t, iri, p.as_slice(), obj.as_slice(), ns)
        },
    }
}

/// Add `pred ( … )` for a non-empty member list (`add_iri_list_axiom`).
pub open spec fn add_list_spec(
    t: Seq<char>,
    subj: Seq<char>,
    pred: Seq<char>,
    members: Seq<Seq<char>>,
    ns: Seq<(Seq<char>, Seq<char>)>,
) -> Outcome {
    if members.len() == 0 {
        Err((ErrKind::PatchInvalid, pred + " axiom must have at least one member"@))
    } else {
        match terms_for(members, ns) {
            Err(e) => Err(e),
            Ok(ts) => add_object_spec(t, subj, pred, list_obj(ts), ns),
        }
    }
}

pub fn add_list_exec(t: &[char], subj: &[char], pred: &str, members: &Vec<Vec<char>>, ns: &Namespaces) -> (r: Result<
    Vec<char>,
    OwlError,
>)
    ensures
        outcome(r) == add_list_spec(t@, subj@, pred@, vviews(members@), ns@),
{
    let p = chars_of(pred);
    if members.len() == 0 {
        let mut d = slice_chars(p.as_slice(), 0, p.len());
        push_str(&mut d, " axiom must have at least one member");
        assert(d@ =~= pred@ + " axiom must have at least one member"@);
        return Err(make_err(ErrKind::PatchInvalid, d.as_slice()));
    }
    match list_obj_exec(members, ns) {
        Err(e) => Err(e),
        Ok(obj) => add_object_exec(t, subj, p.as_slice(), obj.as_slice(), ns),
    }
}

/// First index at or after `i` holding ASCII whitespace, or `s.len()`.
pub open spec fn next_aws(s: Seq<char>, i: int) -> int
    decreases s.len() - i,
{
    if i < 0 || i >= s.len() {
        s.len() as int
    } else if is_ascii_ws(s[i]) {
        i
    } else {
        next_aws(s, i + 1)
    }
}

pub proof fn lemma_next_aws(s: Seq<char>, i: int)
    requires
        0 <= i <= s.len(),
    ensures
        i <= next_aws(s, i) <= s.len(),
    decreases s.len() - i,
{
    if i < s.len() && !is_ascii_ws(s[i]) {
        lemma_next_aws(s, i + 1);
    }
}

/// End of the list member starting at `i`: just past the `>` of an `<IRI>`, else the next
/// ASCII whitespace.
pub open spec fn member_end(s: Seq<char>, i: int) -> int {
    if s[i] == '<' {
        if next_char(s, i + 1, '>') < s.len() {
            next_char(s, i + 1, '>') + 1
        } else {
            s.len() as int
        }
    } else {
        next_aws(s, i)
    }
}

pub proof fn lemma_member_end(s: Seq<char>, i: int)
    requires
        0 <= i < s.len(),
        !is_ascii_ws(s[i]),
    ensures
        i < member_end(s, i) <= s.len(),
{
    lemma_next_char_bounds(s, i + 1, '>');
    lemma_next_aws(s, i + 1);
    if s[i] != '<' {
        assert(next_aws(s, i) == next_aws(s, i + 1));
    }
}

/// Members of a collection body (`tokenize_turtle_terms`).
pub open spec fn list_tokens_from(s: Seq<char>, i: int) -> Seq<Seq<char>>
    decreases s.len() - i,
{
    if i < 0 || i >= s.len() {
        Seq::empty()
    } else if is_ascii_ws(s[i]) {
        list_tokens_from(s, i + 1)
    } else {
        proof {
            lemma_member_end(s, i);
        }
        seq![s.subrange(i, member_end(s, i))] + list_tokens_from(s, member_end(s, i))
    }
}

/// IRI of a collection member (`expand_turtle_term_to_iri`): `<IRI>` or a CURIE with a
/// declared prefix.
pub open spec fn expand_term(term: Seq<char>, ns: Seq<(Seq<char>, Seq<char>)>) -> Option<Seq<char>> {
    let t = trim(term);
    if t.len() >= 2 && t[0] == '<' && t.last() == '>' {
        Some(t.subrange(1, t.len() - 1))
    } else {
        let c = next_char(t, 0, ':');
        if c < t.len() {
            match lookup(ns, t.take(c)) {
                Some(b) => Some(b + t.skip(c + 1)),
                None => None,
            }
        } else {
            None
        }
    }
}

/// Every member expanded, or `None` when one cannot be.
pub open spec fn expand_all(ts: Seq<Seq<char>>, ns: Seq<(Seq<char>, Seq<char>)>) -> Option<
    Seq<Seq<char>>,
>
    decreases ts.len(),
{
    if ts.len() == 0 {
        Some(Seq::empty())
    } else {
        match (expand_term(ts[0], ns), expand_all(ts.drop_first(), ns)) {
            (Some(x), Some(rest)) => Some(seq![x] + rest),
            _ => None,
        }
    }
}

/// IRIs of a collection object `( … )` (`parse_turtle_iri_list`).
pub open spec fn iri_list(o: Seq<char>, ns: Seq<(Seq<char>, Seq<char>)>) -> Option<Seq<Seq<char>>> {
    let t = trim(o);
    if t.len() >= 2 && t[0] == '(' && t.last() == ')' {
        expand_all(list_tokens_from(t.subrange(1, t.len() - 1), 0), ns)
    } else {
        None
    }
}

pub fn expand_term_exec(term: &[char], ns: &Namespaces) -> (r: Option<Vec<char>>)
    ensures
        match r {
            Some(v) => expand_term(term@, ns@) == Some(v@),
            None => expand_term(term@, ns@) is None,
        },
{
    let t = trim_exec(term);
    let n = t.len();
    if n >= 2 && t[0] == '<' && t[n - 1] == '>' {
        return Some(slice_chars(t.as_slice(), 1, n - 1));
    }
    let c = next_char_exec(t.as_slice(), 0, ':');
    proof {
        lemma_next_char_bounds(t@, 0, ':');
    }
    if c < n {
        let p = slice_chars(t.as_slice(), 0, c);
        match ns.get_chars(p.as_slice()) {
            Some(b) => {
                let mut out = slice_chars(b.as_slice(), 0, b.len());
                let local = slice_chars(t.as_slice(), c + 1, n);
                push_all(&mut out, local.as_slice());
                assert(out@ =~= b@ + t@.skip(c + 1));
                Some(out)
            },
            None => None,
        }
    } else {
        None
    }
}

/// IRIs of a collection object.
pub fn iri_list_exec(o: &[char], ns: &Namespaces) -> (r: Option<Vec<Vec<char>>>)
    ensures
        match r {
            Some(v) => iri_list(o@, ns@) == Some(vviews(v@)),
            None => iri_list(o@, ns@) is None,
        },
{
    let t = trim_exec(o);
    let n = t.len();
    if !(n >= 2 && t[0] == '(' && t[n - 1] == ')') {
        return None;
    }
    let inner = slice_chars(t.as_slice(), 1, n - 1);
    let s = inner.as_slice();
    let mut out: Vec<Vec<char>> = Vec::new();
    let mut i: usize = 0;
    while i < s.len()
        invariant
            i <= s@.len(),
            t@ == trim(o@),
            t@.len() >= 2 && t@[0] == '(' && t@.last() == ')',
            inner@ == t@.subrange(1, t@.len() - 1),
            s@ == inner@,
            expand_all(list_tokens_from(s@, 0), ns@) == match expand_all(list_tokens_from(s@, i as int), ns@) {
                Some(rest) => Some(vviews(out@) + rest),
                None => None,
            },
        decreases s@.len() - i,
    {
        if ascii_ws(s[i]) {
            i += 1;
        } else {
            proof {
                lemma_member_end(s@, i as int);
                lemma_next_char_bounds(s@, i + 1, '>');
                lemma_next_aws(s@, i as int);
            }
            let e = if s[i] == '<' {
                let g = next_char_exec(s, i + 1, '>');
                if g < s.len() {
                    g + 1
                } else {
                    s.len()
                }
            } else {
                let mut k = i;
                while k < s.len() && !ascii_ws(s[k])
                    invariant
                        i <= k <= s@.len(),
                        next_aws(s@, i as int) == next_aws(s@, k as int),
                    decreases s@.len() - k,
                {
                    k += 1;
                }
                k
            };
            assert(e as int == member_end(s@, i as int));
            let tok = slice_chars(s, i, e);
            assert(list_tokens_from(s@, i as int) == seq![tok@] + list_tokens_from(s@, e as int));
            assert((seq![tok@] + list_tokens_from(s@, e as int))[0] == tok@);
            assert((seq![tok@] + list_tokens_from(s@, e as int)).drop_first() =~= list_tokens_from(s@, e as int));
            match expand_term_exec(tok.as_slice(), ns) {
                None => {
                    assert(expand_all(list_tokens_from(s@, i as int), ns@) is None);
                    return None;
                },
                Some(x) => {
                    let ghost before = vviews(out@);
                    out.push(x);
                    assert(vviews(out@) =~= before + seq![x@]);
                    assert forall|rest: Seq<Seq<char>>| #[trigger] (before + (seq![x@] + rest)) =~= vviews(out@) + rest by {}
                },
            }
            i = e;
        }
    }
    assert(vviews(out@) + Seq::<Seq<char>>::empty() =~= vviews(out@));
    Some(out)
}

/// The set of `a`'s elements equals the set of `b`'s.
pub open spec fn same_members(a: Seq<Seq<char>>, b: Seq<Seq<char>>) -> bool {
    a.to_set() == b.to_set()
}

fn contains_exec(v: &Vec<Vec<char>>, x: &[char]) -> (r: bool)
    ensures
        r == vviews(v@).contains(x@),
{
    let mut k: usize = 0;
    while k < v.len()
        invariant
            k <= v@.len(),
            forall|j: int| 0 <= j < k ==> vviews(v@)[j] != x@,
        decreases v@.len() - k,
    {
        if seq_eq(v[k].as_slice(), x) {
            assert(vviews(v@)[k as int] == x@);
            return true;
        }
        k += 1;
    }
    false
}

fn all_in(a: &Vec<Vec<char>>, b: &Vec<Vec<char>>) -> (r: bool)
    ensures
        r == (forall|i: int| 0 <= i < a@.len() ==> vviews(b@).contains(#[trigger] vviews(a@)[i])),
{
    let mut k: usize = 0;
    while k < a.len()
        invariant
            k <= a@.len(),
            forall|i: int| 0 <= i < k ==> vviews(b@).contains(#[trigger] vviews(a@)[i]),
        decreases a@.len() - k,
    {
        if !contains_exec(b, a[k].as_slice()) {
            assert(!vviews(b@).contains(vviews(a@)[k as int]));
            return false;
        }
        k += 1;
    }
    true
}

fn same_members_exec(a: &Vec<Vec<char>>, b: &Vec<Vec<char>>) -> (r: bool)
    ensures
        r == same_members(vviews(a@), vviews(b@)),
{
    let ab = all_in(a, b);
    let ba = all_in(b, a);
    let ghost av = vviews(a@);
    let ghost bv = vviews(b@);
    proof {
        if ab && ba {
            assert forall|x: Seq<char>| av.to_set().contains(x) <==> bv.to_set().contains(x) by {
                if av.contains(x) {
                    let i = choose|i: int| 0 <= i < av.len() && av[i] == x;
                    assert(bv.contains(av[i]));
                }
                if bv.contains(x) {
                    let i = choose|i: int| 0 <= i < bv.len() && bv[i] == x;
                    assert(av.contains(bv[i]));
                }
            }
            assert(av.to_set() =~= bv.to_set());
        } else if !ab {
            let i = choose|i: int| 0 <= i < av.len() && !bv.contains(#[trigger] av[i]);
            assert(av.to_set().contains(av[i]));
            assert(!bv.to_set().contains(av[i]));
        } else {
            let i = choose|i: int| 0 <= i < bv.len() && !av.contains(#[trigger] bv[i]);
            assert(bv.to_set().contains(bv[i]));
            assert(!av.to_set().contains(bv[i]));
        }
    }
    ab && ba
}

/// Whether two member lists have the same set of members.
pub fn same_members_pub(a: &Vec<Vec<char>>, b: &Vec<Vec<char>>) -> (r: bool)
    ensures
        r == same_members(vviews(a@), vviews(b@)),
{
    same_members_exec(a, b)
}

/// Whether every element of `a` occurs in `b`.
pub fn all_in_pub(a: &Vec<Vec<char>>, b: &Vec<Vec<char>>) -> (r: bool)
    ensures
        r == (forall|i: int| 0 <= i < a@.len() ==> vviews(b@).contains(#[trigger] vviews(a@)[i])),
{
    all_in(a, b)
}

/// Whether `x` occurs in `v`.
pub fn contains_pub(v: &Vec<Vec<char>>, x: &[char]) -> (r: bool)
    ensures
        r == vviews(v@).contains(x@),
{
    contains_exec(v, x)
}

/// Index of the first object of `objs` whose collection has exactly the members `want`.
pub open spec fn first_set_obj(
    b: Seq<char>,
    objs: Seq<(int, int)>,
    want: Seq<Seq<char>>,
    ns: Seq<(Seq<char>, Seq<char>)>,
) -> Option<int>
    decreases objs.len(),
{
    if objs.len() == 0 {
        None
    } else if (match iri_list(trim(b.subrange(objs[0].0, objs[0].1)), ns) {
        Some(got) => same_members(got, want),
        None => false,
    }) {
        Some(0)
    } else {
        match first_set_obj(b, objs.drop_first(), want, ns) {
            Some(k) => Some(k + 1),
            None => None,
        }
    }
}

/// First occurrence of `pred` from `from` on with a collection object of members `want`.
pub open spec fn set_match_from(
    b: Seq<char>,
    pred: Seq<char>,
    want: Seq<Seq<char>>,
    ns: Seq<(Seq<char>, Seq<char>)>,
    from: int,
) -> Option<(int, Seq<(int, int)>, int)>
    decreases b.len() - from,
{
    if from < 0 {
        None
    } else {
        match find_predicate_token(b, from, pred) {
            None => None,
            Some(p) => {
                proof {
                    lemma_pred_token_range(b, from, Lex::Code, 0, pred);
                }
                let objs = objects_from(b, p + pred.len());
                match first_set_obj(b, objs, want, ns) {
                    Some(k) => Some((p, objs, k)),
                    None => if p < from || p >= b.len() {
                        None
                    } else {
                        set_match_from(b, pred, want, ns, p + 1)
                    },
                }
            },
        }
    }
}

/// Statement text with the collection object of members `want` removed.
pub open spec fn set_removal(
    b: Seq<char>,
    pred: Seq<char>,
    want: Seq<Seq<char>>,
    ns: Seq<(Seq<char>, Seq<char>)>,
) -> Option<Seq<char>> {
    match set_match_from(b, pred, want, ns, 0) {
        None => None,
        Some((p, objs, k)) => {
            let (rs, re) = removal_span(b, p, objs[k].0, objs[k].1, objs.len() == 1);
            Some(cleanup(splice(b, rs, re)))
        },
    }
}

/// The text after the first statement in `ranges` that loses such a collection object.
pub open spec fn first_set_removal(
    t: Seq<char>,
    ranges: Seq<(int, int)>,
    pred: Seq<char>,
    want: Seq<Seq<char>>,
    ns: Seq<(Seq<char>, Seq<char>)>,
) -> Option<Seq<char>>
    decreases ranges.len(),
{
    if ranges.len() == 0 {
        None
    } else {
        match set_removal(t.subrange(ranges[0].0, ranges[0].1), pred, want, ns) {
            Some(nb) => Some(replace_range(t, ranges[0].0, ranges[0].1, nb)),
            None => first_set_removal(t, ranges.drop_first(), pred, want, ns),
        }
    }
}

fn set_removal_exec(b: &[char], pred: &[char], want: &Vec<Vec<char>>, ns: &Namespaces) -> (r: Option<Vec<char>>)
    ensures
        match r {
            Some(v) => set_removal(b@, pred@, vviews(want@), ns@) == Some(v@),
            None => set_removal(b@, pred@, vviews(want@), ns@) is None,
        },
{
    let ghost wv = vviews(want@);
    let mut from: usize = 0;
    while from < b.len()
        invariant
            from <= b.len(),
            wv == vviews(want@),
            set_match_from(b@, pred@, wv, ns@, 0) == set_match_from(b@, pred@, wv, ns@, from as int),
        decreases b.len() - from,
    {
        match find_predicate_token_exec(b, from, pred) {
            None => {
                return None;
            },
            Some(p) => {
                proof {
                    lemma_pred_token_range(b@, from as int, Lex::Code, 0, pred@);
                }
                assert(token_match(b@, p as int, pred@));
                let objs = objects_exec(b, p + pred.len());
                let ghost po = pairs_int(objs@);
                let mut k: usize = 0;
                assert(po.skip(0) =~= po);
                while k < objs.len()
                    invariant
                        k <= objs@.len(),
                        po == pairs_int(objs@),
                        wv == vviews(want@),
                        from <= p < b@.len(),
                        find_predicate_token(b@, from as int, pred@) == Some(p as int),
                        po == objects_from(b@, p + pred@.len()),
                        set_match_from(b@, pred@, wv, ns@, 0) == set_match_from(b@, pred@, wv, ns@, from as int),
                        forall|j: int| 0 <= j < objs@.len() ==> p + pred@.len() <= (#[trigger] objs@[j]).0
                            <= objs@[j].1 <= b.len(),
                        first_set_obj(b@, po, wv, ns@) == match first_set_obj(b@, po.skip(k as int), wv, ns@) {
                            Some(m) => Some(m + k),
                            None => None,
                        },
                    decreases objs@.len() - k,
                {
                    let (s, e) = objs[k];
                    assert(po.skip(k as int)[0] == (s as int, e as int));
                    assert(po.skip(k as int).drop_first() =~= po.skip(k + 1));
                    let x = slice_chars(b, s, e);
                    let o = trim_exec(x.as_slice());
                    let hit = match iri_list_exec(o.as_slice(), ns) {
                        Some(got) => same_members_exec(&got, want),
                        None => false,
                    };
                    if hit {
                        assert(first_set_obj(b@, po.skip(k as int), wv, ns@) == Some(0int));
                        assert(set_match_from(b@, pred@, wv, ns@, from as int) == Some((p as int, po, k as int)));
                        let (rs, re) = crate::block::removal_span_pub(b, p, s, e, objs.len() == 1);
                        let mut cut = slice_chars(b, 0, rs);
                        let tail = slice_chars(b, re, b.len());
                        push_all(&mut cut, tail.as_slice());
                        assert(cut@ =~= splice(b@, rs as int, re as int));
                        return Some(cleanup_exec(cut.as_slice()));
                    }
                    k += 1;
                }
                assert(po.skip(k as int) =~= Seq::<(int, int)>::empty());
                from = p + 1;
            },
        }
    }
    assert(find_predicate_token(b@, from as int, pred@) is None);
    None
}

/// Remove `pred ( … )` from `subj` (`remove_iri_list_axiom`): the list written in this member
/// order, else any collection with the same member set.
pub open spec fn remove_list_spec(
    t: Seq<char>,
    subj: Seq<char>,
    pred: Seq<char>,
    members: Seq<Seq<char>>,
    ns: Seq<(Seq<char>, Seq<char>)>,
) -> Outcome {
    let ns2 = namespaces_for(t, ns);
    match terms_for(members, ns2) {
        Err(e) => Err(e),
        Ok(ts) => match remove_object_spec(t, subj, pred, list_obj(ts), ns2) {
            Ok(x) => Ok(x),
            Err(_) => {
                let ranges = entity_ranges(t, subj, ns2);
                if ranges.len() == 0 {
                    Err((ErrKind::EntityNotFound, subj))
                } else {
                    match first_set_removal(t, ranges, pred, members, ns2) {
                        Some(n) => Ok(n),
                        None => Err((ErrKind::ManchesterInvalid, "no matching "@ + pred + " axiom"@)),
                    }
                }
            },
        },
    }
}

pub fn remove_list_exec(t: &[char], subj: &[char], pred: &str, members: &Vec<Vec<char>>, ns: &Namespaces) -> (r: Result<
    Vec<char>,
    OwlError,
>)
    ensures
        outcome(r) == remove_list_spec(t@, subj@, pred@, vviews(members@), ns@),
{
    let p = chars_of(pred);
    let ns2 = namespaces_for_chars(t, ns);
    let obj = match list_obj_exec(members, &ns2) {
        Err(e) => {
            return Err(e);
        },
        Ok(o) => o,
    };
    match remove_object_exec(t, subj, p.as_slice(), obj.as_slice(), &ns2) {
        Ok(x) => {
            return Ok(x);
        },
        Err(_) => {},
    }
    let ranges = entity_ranges_exec(t, subj, &ns2);
    if ranges.len() == 0 {
        return Err(make_err(ErrKind::EntityNotFound, subj));
    }
    let ghost rs = pairs_int(ranges@);
    let ghost wv = vviews(members@);
    let ghost ns2v = ns2@;
    assert(remove_list_spec(t@, subj@, pred@, wv, ns@) == match first_set_removal(t@, rs, p@, wv, ns2v) {
        Some(n) => Ok(n),
        None => Err((ErrKind::ManchesterInvalid, "no matching "@ + pred@ + " axiom"@)),
    });
    let mut k: usize = 0;
    assert(rs.skip(0) =~= rs);
    while k < ranges.len()
        invariant
            k <= ranges@.len(),
            rs == pairs_int(ranges@),
            wv == vviews(members@),
            ns2v == ns2@,
            p@ == pred@,
            remove_list_spec(t@, subj@, pred@, wv, ns@) == match first_set_removal(t@, rs, p@, wv, ns2v) {
                Some(n) => Ok(n),
                None => Err((ErrKind::ManchesterInvalid, "no matching "@ + pred@ + " axiom"@)),
            },
            forall|j: int| 0 <= j < ranges@.len() ==> (#[trigger] ranges@[j]).0 < ranges@[j].1 <= t.len(),
            first_set_removal(t@, rs, p@, wv, ns2v) == first_set_removal(t@, rs.skip(k as int), p@, wv, ns2v),
        decreases ranges@.len() - k,
    {
        let (s, e) = ranges[k];
        assert(rs.skip(k as int)[0] == (s as int, e as int));
        assert(rs.skip(k as int).drop_first() =~= rs.skip(k + 1));
        let block = slice_chars(t, s, e);
        match set_removal_exec(block.as_slice(), p.as_slice(), members, &ns2) {
            Some(nb) => {
                return Ok(replace_range_exec(t, s, e, nb.as_slice()));
            },
            None => {},
        }
        k += 1;
    }
    assert(rs.skip(k as int) =~= Seq::<(int, int)>::empty());
    let mut d = chars_of("no matching ");
    push_str(&mut d, pred);
    push_str(&mut d, " axiom");
    Err(make_err(ErrKind::ManchesterInvalid, d.as_slice()))
}

/// Add `ps[i] pred ps[j]` for `j` from `j` on (one row of the pairwise closure).
pub open spec fn add_pairs_row(
    t: Seq<char>,
    ps: Seq<Seq<char>>,
    pred: Seq<char>,
    ns: Seq<(Seq<char>, Seq<char>)>,
    i: int,
    j: int,
) -> Outcome
    decreases ps.len() - j,
{
    if i < 0 || i >= ps.len() || j < 0 || j >= ps.len() {
        Ok(t)
    } else if !safe_iri(ps[j]) {
        Err((ErrKind::PatchInvalid, unsafe_iri_detail(ps[j])))
    } else {
        match add_object_spec(t, ps[i], pred, turtle_term(ps[j], ns), ns) {
            Err(e) => Err(e),
            Ok(t2) => add_pairs_row(t2, ps, pred, ns, i, j + 1),
        }
    }
}

/// Continue with the rows from `i` on after a row's outcome.
pub open spec fn then_rows(
    r: Outcome,
    ps: Seq<Seq<char>>,
    pred: Seq<char>,
    ns: Seq<(Seq<char>, Seq<char>)>,
    i: int,
) -> Outcome {
    match r {
        Err(e) => Err(e),
        Ok(t2) => add_pairs_from(t2, ps, pred, ns, i),
    }
}

/// Add every pair `ps[i] pred ps[j]`, `i < j`, rows from `i` on.
pub open spec fn add_pairs_from(
    t: Seq<char>,
    ps: Seq<Seq<char>>,
    pred: Seq<char>,
    ns: Seq<(Seq<char>, Seq<char>)>,
    i: int,
) -> Outcome
    decreases ps.len() - i,
{
    if i < 0 || i >= ps.len() {
        Ok(t)
    } else {
        match add_pairs_row(t, ps, pred, ns, i, i + 1) {
            Err(e) => Err(e),
            Ok(t2) => add_pairs_from(t2, ps, pred, ns, i + 1),
        }
    }
}

/// Pairwise closure of a property axiom (`add_pairwise_property_axioms`).
pub open spec fn add_pairwise_spec(
    t: Seq<char>,
    ps: Seq<Seq<char>>,
    pred: Seq<char>,
    ns: Seq<(Seq<char>, Seq<char>)>,
) -> Outcome {
    if ps.len() < 2 {
        Err((ErrKind::PatchInvalid, pred + " requires at least two properties"@))
    } else {
        add_pairs_from(t, ps, pred, ns, 0)
    }
}

pub fn add_pairwise_exec(t: &[char], ps: &Vec<Vec<char>>, pred: &str, ns: &Namespaces) -> (r: Result<
    Vec<char>,
    OwlError,
>)
    ensures
        outcome(r) == add_pairwise_spec(t@, vviews(ps@), pred@, ns@),
{
    let p = chars_of(pred);
    if ps.len() < 2 {
        let mut d = slice_chars(p.as_slice(), 0, p.len());
        push_str(&mut d, " requires at least two properties");
        assert(d@ =~= pred@ + " requires at least two properties"@);
        return Err(make_err(ErrKind::PatchInvalid, d.as_slice()));
    }
    let ghost pv = vviews(ps@);
    let mut cur = slice_chars(t, 0, t.len());
    assert(cur@ =~= t@);
    let mut i: usize = 0;
    while i < ps.len()
        invariant
            i <= ps@.len(),
            pv == vviews(ps@),
            p@ == pred@,
            add_pairwise_spec(t@, pv, pred@, ns@) == add_pairs_from(cur@, pv, pred@, ns@, i as int),
        decreases ps@.len() - i,
    {
        let mut j: usize = i + 1;
        while j < ps.len()
            invariant
                i < ps@.len(),
                i < j <= ps@.len(),
                pv == vviews(ps@),
                p@ == pred@,
                add_pairwise_spec(t@, pv, pred@, ns@) == then_rows(
                    add_pairs_row(cur@, pv, pred@, ns@, i as int, j as int),
                    pv,
                    pred@,
                    ns@,
                    i + 1,
                ),
            decreases ps@.len() - j,
        {
            assert(pv[j as int] == ps@[j as int]@);
            assert(pv[i as int] == ps@[i as int]@);
            let other = match iri_to_turtle_term(ps[j].as_slice(), ns) {
                Ok(o) => o,
                Err(e) => {
                    return Err(e);
                },
            };
            match add_object_exec(cur.as_slice(), ps[i].as_slice(), p.as_slice(), other.as_slice(), ns) {
                Err(e) => {
                    return Err(e);
                },
                Ok(n) => {
                    cur = n;
                },
            }
            j += 1;
        }
        i += 1;
    }
    Ok(cur)
}

/// Text and change flag after trying an optional removal.
pub open spec fn try_step(t: Seq<char>, ch: bool, r: Outcome) -> (Seq<char>, bool) {
    match r {
        Ok(x) => (x, true),
        Err(_) => (t, ch),
    }
}

/// Try to remove `ps[i] pred ps[j]` and `ps[j] pred ps[i]` for `j` from `j` on.
pub open spec fn rm_pairs_row(
    t: Seq<char>,
    ch: bool,
    ps: Seq<Seq<char>>,
    pred: Seq<char>,
    ns: Seq<(Seq<char>, Seq<char>)>,
    i: int,
    j: int,
) -> (Seq<char>, bool)
    decreases ps.len() - j,
{
    if i < 0 || i >= ps.len() || j < 0 || j >= ps.len() {
        (t, ch)
    } else {
        let (t1, c1) = try_step(t, ch, remove_iri_object_spec(t, ps[i], pred, ps[j], ns));
        let (t2, c2) = try_step(t1, c1, remove_iri_object_spec(t1, ps[j], pred, ps[i], ns));
        rm_pairs_row(t2, c2, ps, pred, ns, i, j + 1)
    }
}

/// Rows of pairwise removals from `i` on.
pub open spec fn rm_pairs_from(
    t: Seq<char>,
    ch: bool,
    ps: Seq<Seq<char>>,
    pred: Seq<char>,
    ns: Seq<(Seq<char>, Seq<char>)>,
    i: int,
) -> (Seq<char>, bool)
    decreases ps.len() - i,
{
    if i < 0 || i >= ps.len() {
        (t, ch)
    } else {
        let (t2, c2) = rm_pairs_row(t, ch, ps, pred, ns, i, i + 1);
        rm_pairs_from(t2, c2, ps, pred, ns, i + 1)
    }
}

/// Every pairwise axiom between the members removed, in both directions.
pub fn rm_pairs_exec(t: &[char], ps: &Vec<Vec<char>>, pred: &[char], ns: &Namespaces) -> (r: (Vec<char>, bool))
    ensures
        (r.0@, r.1) == rm_pairs_from(t@, false, vviews(ps@), pred@, ns@, 0),
{
    rm_pairs_exec_from(t, false, ps, pred, ns)
}

/// Pairwise removals starting with change flag `ch0`.
pub fn rm_pairs_exec_from(t: &[char], ch0: bool, ps: &Vec<Vec<char>>, pred: &[char], ns: &Namespaces) -> (r: (Vec<char>, bool))
    ensures
        (r.0@, r.1) == rm_pairs_from(t@, ch0, vviews(ps@), pred@, ns@, 0),
{
    let ghost pv = vviews(ps@);
    let mut cur = slice_chars(t, 0, t.len());
    assert(cur@ =~= t@);
    let mut changed = ch0;
    let mut i: usize = 0;
    while i < ps.len()
        invariant
            i <= ps@.len(),
            pv == vviews(ps@),
            rm_pairs_from(t@, ch0, pv, pred@, ns@, 0) == rm_pairs_from(cur@, changed, pv, pred@, ns@, i as int),
        decreases ps@.len() - i,
    {
        let mut j: usize = i + 1;
        while j < ps.len()
            invariant
                i < ps@.len(),
                i < j <= ps@.len(),
                pv == vviews(ps@),
                rm_pairs_from(t@, ch0, pv, pred@, ns@, 0) == ({
                    let (t2, c2) = rm_pairs_row(cur@, changed, pv, pred@, ns@, i as int, j as int);
                    rm_pairs_from(t2, c2, pv, pred@, ns@, i + 1)
                }),
            decreases ps@.len() - j,
        {
            assert(pv[j as int] == ps@[j as int]@);
            assert(pv[i as int] == ps@[i as int]@);
            match remove_iri_object_exec(cur.as_slice(), ps[i].as_slice(), pred, ps[j].as_slice(), ns) {
                Ok(n) => {
                    cur = n;
                    changed = true;
                },
                Err(_) => {},
            }
            match remove_iri_object_exec(cur.as_slice(), ps[j].as_slice(), pred, ps[i].as_slice(), ns) {
                Ok(n) => {
                    cur = n;
                    changed = true;
                },
                Err(_) => {},
            }
            j += 1;
        }
        i += 1;
    }
    (cur, changed)
}

/// Remove the pairwise closure of a property axiom (`remove_pairwise_property_axioms`); it is
/// an error when nothing was removed.
pub open spec fn remove_pairwise_spec(
    t: Seq<char>,
    ps: Seq<Seq<char>>,
    pred: Seq<char>,
    ns: Seq<(Seq<char>, Seq<char>)>,
) -> Outcome {
    if ps.len() < 2 {
        Err((ErrKind::PatchInvalid, pred + " requires at least two properties"@))
    } else {
        let (t2, ch) = rm_pairs_from(t, false, ps, pred, ns, 0);
        if ch {
            Ok(t2)
        } else {
            Err((ErrKind::ManchesterInvalid, "no matching "@ + pred + " axiom"@))
        }
    }
}

pub fn remove_pairwise_exec(t: &[char], ps: &Vec<Vec<char>>, pred: &str, ns: &Namespaces) -> (r: Result<
    Vec<char>,
    OwlError,
>)
    ensures
        outcome(r) == remove_pairwise_spec(t@, vviews(ps@), pred@, ns@),
{
    let p = chars_of(pred);
    if ps.len() < 2 {
        let mut d = slice_chars(p.as_slice(), 0, p.len());
        push_str(&mut d, " requires at least two properties");
        assert(d@ =~= pred@ + " requires at least two properties"@);
        return Err(make_err(ErrKind::PatchInvalid, d.as_slice()));
    }
    let (cur, changed) = rm_pairs_exec(t, ps, p.as_slice(), ns);
    if changed {
        Ok(cur)
    } else {
        let mut d = chars_of("no matching ");
        push_str(&mut d, pred);
        push_str(&mut d, " axiom");
        Err(make_err(ErrKind::ManchesterInvalid, d.as_slice()))
    }
}

/// Add `ps[k] pred ps[k+1]` for consecutive members from `k` on.
pub open spec fn add_windows_from(
    t: Seq<char>,
    ps: Seq<Seq<char>>,
    pred: Seq<char>,
    ns: Seq<(Seq<char>, Seq<char>)>,
    k: int,
) -> Outcome
    decreases ps.len() - k,
{
    if k < 0 || k + 1 >= ps.len() {
        Ok(t)
    } else if !safe_iri(ps[k + 1]) {
        Err((ErrKind::PatchInvalid, unsafe_iri_detail(ps[k + 1])))
    } else {
        match add_object_spec(t, ps[k], pred, turtle_term(ps[k + 1], ns), ns) {
            Err(e) => Err(e),
            Ok(t2) => add_windows_from(t2, ps, pred, ns, k + 1),
        }
    }
}

/// Remove `ps[k] pred ps[k+1]` for consecutive members from `k` on; any failure stops.
pub open spec fn rm_windows_from(
    t: Seq<char>,
    ps: Seq<Seq<char>>,
    pred: Seq<char>,
    ns: Seq<(Seq<char>, Seq<char>)>,
    k: int,
) -> Outcome
    decreases ps.len() - k,
{
    if k < 0 || k + 1 >= ps.len() {
        Ok(t)
    } else {
        match remove_iri_object_spec(t, ps[k], pred, ps[k + 1], ns) {
            Err(e) => Err(e),
            Ok(t2) => rm_windows_from(t2, ps, pred, ns, k + 1),
        }
    }
}

/// Chain a pairwise individual axiom over consecutive members (`add_pairwise_individual_axioms`
/// when `add`, `remove_pairwise_individual_axioms` otherwise).
pub open spec fn windows_spec(
    t: Seq<char>,
    ps: Seq<Seq<char>>,
    pred: Seq<char>,
    ns: Seq<(Seq<char>, Seq<char>)>,
    add: bool,
) -> Outcome {
    if ps.len() < 2 {
        Err((ErrKind::PatchInvalid, pred + " requires at least two individuals"@))
    } else if add {
        add_windows_from(t, ps, pred, ns, 0)
    } else {
        rm_windows_from(t, ps, pred, ns, 0)
    }
}

pub fn windows_exec(t: &[char], ps: &Vec<Vec<char>>, pred: &str, ns: &Namespaces, add: bool) -> (r: Result<
    Vec<char>,
    OwlError,
>)
    ensures
        outcome(r) == windows_spec(t@, vviews(ps@), pred@, ns@, add),
{
    let p = chars_of(pred);
    if ps.len() < 2 {
        let mut d = slice_chars(p.as_slice(), 0, p.len());
        push_str(&mut d, " requires at least two individuals");
        assert(d@ =~= pred@ + " requires at least two individuals"@);
        return Err(make_err(ErrKind::PatchInvalid, d.as_slice()));
    }
    let ghost pv = vviews(ps@);
    let mut cur = slice_chars(t, 0, t.len());
    assert(cur@ =~= t@);
    let mut k: usize = 0;
    while k < ps.len() - 1
        invariant
            k < ps@.len(),
            ps@.len() >= 2,
            pv == vviews(ps@),
            p@ == pred@,
            windows_spec(t@, pv, pred@, ns@, add) == if add {
                add_windows_from(cur@, pv, pred@, ns@, k as int)
            } else {
                rm_windows_from(cur@, pv, pred@, ns@, k as int)
            },
        decreases ps@.len() - k,
    {
        assert(pv[k as int] == ps@[k as int]@);
        assert(pv[k + 1] == ps@[k + 1]@);
        if add {
            let other = match iri_to_turtle_term(ps[k + 1].as_slice(), ns) {
                Ok(o) => o,
                Err(e) => {
                    return Err(e);
                },
            };
            match add_object_exec(cur.as_slice(), ps[k].as_slice(), p.as_slice(), other.as_slice(), ns) {
                Err(e) => {
                    return Err(e);
                },
                Ok(n) => {
                    cur = n;
                },
            }
        } else {
            match remove_iri_object_exec(cur.as_slice(), ps[k].as_slice(), p.as_slice(), ps[k + 1].as_slice(), ns) {
                Err(e) => {
                    return Err(e);
                },
                Ok(n) => {
                    cur = n;
                },
            }
        }
        k += 1;
    }
    Ok(cur)
}

} // verus!
