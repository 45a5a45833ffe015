//! IRI safety checks and Turtle term rendering of IRIs.
use vstd::prelude::*;
use crate::error::{join2, OwlError};
use crate::namespaces::{
    best_namespace_match, distinct_keys, is_best_match, lemma_seq_lt_total, Namespaces,
};
use crate::text::{
    ascii_alnum, chars_of, is_ascii_alnum, is_ws, push_all, push_str, seq_eq, slice_chars, ws,
};

verus! {

/// `format!("{s:?}")`: Rust's debug rendering of a string (quoted and escaped).
pub uninterp spec fn debug_rendering(s: Seq<char>) -> Seq<char>;

/// Debug rendering of `s`, as `{:?}` prints it.
#[verifier::external_body]
pub(crate) fn debug_text(s: &[char]) -> (r: Vec<char>)
    ensures
        r@ == debug_rendering(s@),
{
    let st: String = s.iter().collect();
    format!("{st:?}").chars().collect()
}

/// `char::is_control`: general category Cc.
pub open spec fn is_control(c: char) -> bool {
    c <= '\u{1f}' || ('\u{7f}' <= c && c <= '\u{9f}')
}

/// Characters that cannot appear inside a Turtle `<...>` IRI term.
pub open spec fn is_unsafe_iri_char(c: char) -> bool {
    is_control(c) || is_ws(c) || c == '<' || c == '>' || c == '"' || c == '{' || c == '}' || c
        == '|' || c == '^' || c == '`' || c == '\\'
}

/// An IRI that can be written between angle brackets without breaking Turtle syntax.
pub open spec fn safe_iri(s: Seq<char>) -> bool {
    s.len() > 0 && forall|i: int| 0 <= i < s.len() ==> !is_unsafe_iri_char(#[trigger] s[i])
}

fn unsafe_iri_char(c: char) -> (r: bool)
    ensures
        r == is_unsafe_iri_char(c),
{
    c <= '\u{1f}' || ('\u{7f}' <= c && c <= '\u{9f}') || ws(c) || c == '<' || c == '>' || c
        == '"' || c == '{' || c == '}' || c == '|' || c == '^' || c == '`' || c == '\\'
}

pub fn safe_iri_chars(s: &[char]) -> (r: bool)
    ensures
        r == safe_iri(s@),
{
    if s.len() == 0 {
        return false;
    }
    let mut i: usize = 0;
    while i < s.len()
        invariant
            0 <= i <= s.len(),
            forall|k: int| 0 <= k < i ==> !is_unsafe_iri_char(#[trigger] s@[k]),
        decreases s.len() - i,
    {
        if unsafe_iri_char(s[i]) {
            return false;
        }
        i += 1;
    }
    true
}

/// Reject IRIs that would break Turtle `<...>` terms or inject syntax.
pub fn is_safe_iri(iri: &str) -> (r: bool)
    ensures
        r == safe_iri(iri@),
{
    let v = chars_of(iri);
    safe_iri_chars(v.as_slice())
}

/// Characters allowed in the simplified Turtle `PN_LOCAL`.
pub open spec fn is_pn_local_char(c: char) -> bool {
    is_ascii_alnum(c) || c == '_' || c == '-' || c == '.' || c == '~'
}

/// A simplified Turtle `PN_LOCAL`: non-empty, allowed characters, no leading/trailing dot.
pub open spec fn valid_pn_local(s: Seq<char>) -> bool {
    &&& s.len() > 0
    &&& forall|i: int| 0 <= i < s.len() ==> is_pn_local_char(#[trigger] s[i])
    &&& s[0] != '.'
    &&& s.last() != '.'
}

pub fn is_valid_pn_local(s: &[char]) -> (r: bool)
    ensures
        r == valid_pn_local(s@),
{
    if s.len() == 0 {
        return false;
    }
    let mut i: usize = 0;
    while i < s.len()
        invariant
            0 <= i <= s.len(),
            forall|k: int| 0 <= k < i ==> is_pn_local_char(#[trigger] s@[k]),
        decreases s.len() - i,
    {
        let c = s[i];
        if !(ascii_alnum(c) || c == '_' || c == '-' || c == '.' || c == '~') {
            return false;
        }
        i += 1;
    }
    s[0] != '.' && s[s.len() - 1] != '.'
}

/// Prefix characters accepted by prefix declarations and CURIEs.
pub open spec fn is_prefix_char(c: char) -> bool {
    is_ascii_alnum(c) || c == '_'
}

/// A non-empty prefix made of ASCII letters, digits and underscores.
pub open spec fn valid_prefix_name(s: Seq<char>) -> bool {
    s.len() > 0 && forall|i: int| 0 <= i < s.len() ==> is_prefix_char(#[trigger] s[i])
}

pub fn is_valid_prefix_name(s: &[char]) -> (r: bool)
    ensures
        r == valid_prefix_name(s@),
{
    if s.len() == 0 {
        return false;
    }
    let mut i: usize = 0;
    while i < s.len()
        invariant
            0 <= i <= s.len(),
            forall|k: int| 0 <= k < i ==> is_prefix_char(#[trigger] s@[k]),
        decreases s.len() - i,
    {
        if !(ascii_alnum(s[i]) || s[i] == '_') {
            return false;
        }
        i += 1;
    }
    true
}

/// The binding index chosen by the longest-namespace rule, if any.
pub open spec fn best_match(ns: Seq<(Seq<char>, Seq<char>)>, iri: Seq<char>) -> Option<int> {
    if exists|i: int| is_best_match(ns, iri, i) {
        Some(choose|i: int| is_best_match(ns, iri, i))
    } else {
        None
    }
}

/// The longest-namespace winner is unique.
pub proof fn lemma_best_match_unique(ns: Seq<(Seq<char>, Seq<char>)>, iri: Seq<char>, i: int)
    requires
        distinct_keys(ns),
        is_best_match(ns, iri, i),
    ensures
        best_match(ns, iri) == Some(i),
{
    lemma_seq_lt_total();
    let j = choose|j: int| is_best_match(ns, iri, j);
    if j != i {
        assert(ns[i].0 != ns[j].0);
    }
}

/// The full IRI of `owl:Thing`.
pub open spec fn owl_thing() -> Seq<char> {
    "http://www.w3.org/2002/07/owl#Thing"@
}

/// Turtle term written for `iri`: `owl:Thing`, the longest-prefix CURIE when its local part
/// is a valid `PN_LOCAL`, otherwise the bracketed IRI.
pub open spec fn turtle_term(iri: Seq<char>, ns: Seq<(Seq<char>, Seq<char>)>) -> Seq<char> {
    if iri == owl_thing() {
        "owl:Thing"@
    } else {
        match best_match(ns, iri) {
            Some(i) if valid_pn_local(iri.skip(ns[i].1.len() as int)) => ns[i].0 + ":"@ + iri.skip(
                ns[i].1.len() as int,
            ),
            _ => "<"@ + iri + ">"@,
        }
    }
}

/// Detail text of the error for an IRI that cannot be written to Turtle.
pub open spec fn unsafe_iri_detail(iri: Seq<char>) -> Seq<char> {
    "IRI contains characters that cannot be safely written to Turtle: "@ + debug_rendering(iri)
}

/// `<iri>`.
pub fn bracketed(iri: &[char]) -> (r: Vec<char>)
    ensures
        r@ == "<"@ + iri@ + ">"@,
{
    let mut out = chars_of("<");
    push_all(&mut out, iri);
    push_str(&mut out, ">");
    out
}

/// `prefix:local`.
pub fn curie(prefix: &[char], local: &[char]) -> (r: Vec<char>)
    ensures
        r@ == prefix@ + ":"@ + local@,
{
    let mut out = slice_chars(prefix, 0, prefix.len());
    push_str(&mut out, ":");
    push_all(&mut out, local);
    out
}

/// Turtle term for an IRI (`iri_to_turtle_term`), rejecting unsafe IRIs.
pub fn iri_to_turtle_term(iri: &[char], ns: &Namespaces) -> (r: Result<Vec<char>, OwlError>)
    ensures
        safe_iri(iri@) ==> r is Ok && r->Ok_0@ == turtle_term(iri@, ns@),
        !safe_iri(iri@) ==> (r matches Err(OwlError::PatchInvalid(m)) && m@ == unsafe_iri_detail(
            iri@,
        )),
{
    if !safe_iri_chars(iri) {
        let d = debug_text(iri);
        return Err(
            OwlError::PatchInvalid(
                join2(
                    "IRI contains characters that cannot be safely written to Turtle: ",
                    d.as_slice(),
                ),
            ),
        );
    }
    let thing = chars_of("http://www.w3.org/2002/07/owl#Thing");
    if seq_eq(iri, thing.as_slice()) {
        return Ok(chars_of("owl:Thing"));
    }
    ns.distinct();
    match best_namespace_match(iri, ns) {
        Some(i) => {
            proof {
                lemma_best_match_unique(ns@, iri@, i as int);
            }
            let nsv = ns.value_at(i);
            let local = slice_chars(iri, nsv.len(), iri.len());
            if is_valid_pn_local(local.as_slice()) {
                return Ok(curie(ns.key_at(i).as_slice(), local.as_slice()));
            }
            Ok(bracketed(iri))
        },
        None => {
            assert(best_match(ns@, iri@) is None);
            Ok(bracketed(iri))
        },
    }
}

} // verus!
