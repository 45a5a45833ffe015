//! Presentation helpers: abbreviation, ISO-8601 timestamps, Markdown entity links and the
//! default annotation-property ordering.
use vstd::prelude::*;
use crate::namespaces::{
    chars_lt, lemma_seq_lt_irreflexive, lemma_seq_lt_pair, lemma_seq_lt_trans, seq_lt,
};
use crate::render::{unescape_manchester_rendering, unescape_manchester_spec};
use crate::text::{
    chars_of, decimal, padded_decimal, push_all, push_str, seq_eq, slice_chars, string_from,
    zero_pad,
};
use std::cmp::Ordering;

verus! {

/// The ellipsis that marks abbreviated text (U+2026).
pub const ELLIPSIS: &'static str = "\u{2026}";

/// Abbreviation of `s` to `max_len` characters: empty stays empty, a zero limit gives only
/// the ellipsis, longer text is cut and gets a trailing `…`.
pub open spec fn abbreviation(s: Seq<char>, max_len: nat) -> Seq<char> {
    if s.len() == 0 {
        Seq::empty()
    } else if max_len == 0 {
        seq!['\u{2026}']
    } else if s.len() <= max_len {
        s
    } else {
        s.take(max_len as int).push('\u{2026}')
    }
}

/// Abbreviate `s` to at most `max_len` characters, appending an ellipsis when truncated.
pub fn abbreviate_string(s: &str, max_len: usize) -> (r: String)
    ensures
        r@ == abbreviation(s@, max_len as nat),
{
    let v = chars_of(s);
    if v.len() == 0 {
        return string_from(v.as_slice());
    }
    if max_len == 0 {
        let mut e: Vec<char> = Vec::new();
        e.push('\u{2026}');
        return string_from(e.as_slice());
    }
    if v.len() <= max_len {
        return string_from(v.as_slice());
    }
    let mut out = slice_chars(v.as_slice(), 0, max_len);
    out.push('\u{2026}');
    string_from(out.as_slice())
}

/// `yyyy-MM-dd'T'HH:mm:ss'Z'` with each field zero-padded to its width.
pub open spec fn iso8601(
    year: nat,
    month: nat,
    day: nat,
    hour: nat,
    minute: nat,
    second: nat,
) -> Seq<char> {
    zero_pad(decimal(year), 4) + "-"@ + zero_pad(decimal(month), 2) + "-"@ + zero_pad(
        decimal(day),
        2,
    ) + "T"@ + zero_pad(decimal(hour), 2) + ":"@ + zero_pad(decimal(minute), 2) + ":"@
        + zero_pad(decimal(second), 2) + "Z"@
}

/// Format a UTC datetime as `yyyy-MM-dd'T'HH:mm:ss'Z'`.
pub fn format_iso8601_utc(
    year: u32,
    month: u32,
    day: u32,
    hour: u32,
    minute: u32,
    second: u32,
) -> (r: String)
    ensures
        r@ == iso8601(
            year as nat,
            month as nat,
            day as nat,
            hour as nat,
            minute as nat,
            second as nat,
        ),
{
    let mut out = padded_decimal(u64::from(year), 4);
    push_str(&mut out, "-");
    let m = padded_decimal(u64::from(month), 2);
    push_all(&mut out, m.as_slice());
    push_str(&mut out, "-");
    let d = padded_decimal(u64::from(day), 2);
    push_all(&mut out, d.as_slice());
    push_str(&mut out, "T");
    let h = padded_decimal(u64::from(hour), 2);
    push_all(&mut out, h.as_slice());
    push_str(&mut out, ":");
    let mi = padded_decimal(u64::from(minute), 2);
    push_all(&mut out, mi.as_slice());
    push_str(&mut out, ":");
    let se = padded_decimal(u64::from(second), 2);
    push_all(&mut out, se.as_slice());
    push_str(&mut out, "Z");
    string_from(out.as_slice())
}

/// Markdown entity link: `[unescaped display](iri)`.
pub fn render_entity_markdown(display_name: &str, iri: &str) -> (r: String)
    ensures
        r@ == "["@ + unescape_manchester_spec(display_name@) + "]("@ + iri@ + ")"@,
{
    let name = unescape_manchester_rendering(display_name);
    let mut out = chars_of("[");
    push_str(&mut out, name.as_str());
    push_str(&mut out, "](");
    push_str(&mut out, iri);
    push_str(&mut out, ")");
    string_from(out.as_slice())
}

/// Default annotation-property IRI ordering (labels, identifiers, definitions, provenance,
/// comments, see-also, synonyms).
pub open spec fn default_annotation_order() -> Seq<Seq<char>> {
    seq![
        "http://www.w3.org/2000/01/rdf-schema#label"@,
        "http://www.w3.org/2004/02/skos/core#prefLabel"@,
        "http://purl.org/dc/elements/1.1/title"@,
        "http://www.geneontology.org/formats/oboInOwl#id"@,
        "http://www.geneontology.org/formats/oboInOwl#hasAlternativeId"@,
        "http://www.geneontology.org/formats/oboInOwl#hasOBONamespace"@,
        "http://purl.obolibrary.org/obo/IAO_0000115"@,
        "http://www.w3.org/2004/02/skos/core#definition"@,
        "http://www.w3.org/2004/02/skos/core#note"@,
        "http://purl.org/dc/elements/1.1/description"@,
        "http://purl.org/dc/elements/1.1/rights"@,
        "http://purl.org/dc/terms/license"@,
        "http://purl.org/dc/elements/1.1/publisher"@,
        "http://purl.org/dc/elements/1.1/creator"@,
        "http://purl.org/dc/elements/1.1/contributor"@,
        "http://www.w3.org/2000/01/rdf-schema#comment"@,
        "http://www.w3.org/2004/02/skos/core#altLabel"@,
        "http://www.w3.org/2000/01/rdf-schema#seeAlso"@,
        "http://www.w3.org/2000/01/rdf-schema#isDefinedBy"@,
        "http://www.geneontology.org/formats/oboInOwl#hasExactSynonym"@,
        "http://www.geneontology.org/formats/oboInOwl#hasRelatedSynonym"@,
        "http://www.geneontology.org/formats/oboInOwl#hasBroadSynonym"@,
        "http://www.geneontology.org/formats/oboInOwl#hasNarrowSynonym"@
    ]
}

fn order_entry(i: usize) -> (r: &'static str)
    requires
        i < 23,
    ensures
        r@ == default_annotation_order()[i as int],
{
    match i {
        0 => "http://www.w3.org/2000/01/rdf-schema#label",
        1 => "http://www.w3.org/2004/02/skos/core#prefLabel",
        2 => "http://purl.org/dc/elements/1.1/title",
        3 => "http://www.geneontology.org/formats/oboInOwl#id",
        4 => "http://www.geneontology.org/formats/oboInOwl#hasAlternativeId",
        5 => "http://www.geneontology.org/formats/oboInOwl#hasOBONamespace",
        6 => "http://purl.obolibrary.org/obo/IAO_0000115",
        7 => "http://www.w3.org/2004/02/skos/core#definition",
        8 => "http://www.w3.org/2004/02/skos/core#note",
        9 => "http://purl.org/dc/elements/1.1/description",
        10 => "http://purl.org/dc/elements/1.1/rights",
        11 => "http://purl.org/dc/terms/license",
        12 => "http://purl.org/dc/elements/1.1/publisher",
        13 => "http://purl.org/dc/elements/1.1/creator",
        14 => "http://purl.org/dc/elements/1.1/contributor",
        15 => "http://www.w3.org/2000/01/rdf-schema#comment",
        16 => "http://www.w3.org/2004/02/skos/core#altLabel",
        17 => "http://www.w3.org/2000/01/rdf-schema#seeAlso",
        18 => "http://www.w3.org/2000/01/rdf-schema#isDefinedBy",
        19 => "http://www.geneontology.org/formats/oboInOwl#hasExactSynonym",
        20 => "http://www.geneontology.org/formats/oboInOwl#hasRelatedSynonym",
        21 => "http://www.geneontology.org/formats/oboInOwl#hasBroadSynonym",
        _ => "http://www.geneontology.org/formats/oboInOwl#hasNarrowSynonym",
    }
}

/// `iri` is listed at position `i` and not earlier.
pub open spec fn first_listed_at(iri: Seq<char>, i: int) -> bool {
    0 <= i < 23 && default_annotation_order()[i] == iri && forall|k: int|
        0 <= k < i ==> default_annotation_order()[k] != iri
}

/// First position of `iri` in the default ordering, if listed.
pub open spec fn order_index(iri: Seq<char>) -> Option<int> {
    if exists|i: int| first_listed_at(iri, i) {
        Some(choose|i: int| first_listed_at(iri, i))
    } else {
        None
    }
}

fn annotation_order_index(iri: &[char]) -> (r: Option<usize>)
    ensures
        match r {
            Some(i) => order_index(iri@) == Some(i as int),
            None => order_index(iri@) is None,
        },
{
    let mut i: usize = 0;
    while i < 23
        invariant
            0 <= i <= 23,
            forall|k: int| 0 <= k < i ==> default_annotation_order()[k] != iri@,
        decreases 23 - i,
    {
        let e = chars_of(order_entry(i));
        if seq_eq(e.as_slice(), iri) {
            proof {
                assert(first_listed_at(iri@, i as int));
                let j = choose|j: int| first_listed_at(iri@, j);
                assert(j == i as int);
            }
            return Some(i);
        }
        i += 1;
    }
    assert forall|j: int| !first_listed_at(iri@, j) by {}
    None
}

/// Code-point order of two character sequences as an `Ordering`.
pub open spec fn text_order(a: Seq<char>, b: Seq<char>) -> Ordering {
    if seq_lt(a, b) {
        Ordering::Less
    } else if a == b {
        Ordering::Equal
    } else {
        Ordering::Greater
    }
}

fn text_order_exec(a: &[char], b: &[char]) -> (r: Ordering)
    ensures
        r == text_order(a@, b@),
{
    if chars_lt(a, b) {
        Ordering::Less
    } else if seq_eq(a, b) {
        Ordering::Equal
    } else {
        Ordering::Greater
    }
}

/// Default ordering: listed IRIs by list position (then text order), listed before unlisted,
/// unlisted by text order.
pub open spec fn annotation_order(a: Seq<char>, b: Seq<char>) -> Ordering {
    match (order_index(a), order_index(b)) {
        (Some(i), Some(j)) => if i < j {
            Ordering::Less
        } else if i > j {
            Ordering::Greater
        } else {
            text_order(a, b)
        },
        (Some(_), None) => Ordering::Less,
        (None, Some(_)) => Ordering::Greater,
        (None, None) => text_order(a, b),
    }
}

/// Compare annotation-property IRIs using the default ordering.
pub fn cmp_annotation_property_iri(a: &str, b: &str) -> (r: Ordering)
    ensures
        r == annotation_order(a@, b@),
{
    let av = chars_of(a);
    let bv = chars_of(b);
    match (annotation_order_index(av.as_slice()), annotation_order_index(bv.as_slice())) {
        (Some(i), Some(j)) => {
            if i < j {
                Ordering::Less
            } else if i > j {
                Ordering::Greater
            } else {
                text_order_exec(av.as_slice(), bv.as_slice())
            }
        },
        (Some(_), None) => Ordering::Less,
        (None, Some(_)) => Ordering::Greater,
        (None, None) => text_order_exec(av.as_slice(), bv.as_slice()),
    }
}

proof fn lemma_order_index_same(a: Seq<char>, b: Seq<char>)
    requires
        order_index(a) is Some,
        order_index(a) == order_index(b),
    ensures
        a == b,
{
    let i = choose|i: int| first_listed_at(a, i);
    let j = choose|j: int| first_listed_at(b, j);
}

/// Law: the default annotation-property ordering is a strict total order: two IRIs compare
/// equal exactly when they are the same, swapping the arguments reverses the result, and
/// `Less` is transitive.
pub proof fn law_annotation_order_is_total(a: Seq<char>, b: Seq<char>, c: Seq<char>)
    ensures
        (annotation_order(a, b) == Ordering::Equal) <==> a == b,
        (annotation_order(a, b) == Ordering::Less) <==> (annotation_order(b, a) == Ordering::Greater),
        annotation_order(a, b) == Ordering::Less && annotation_order(b, c) == Ordering::Less
            ==> annotation_order(a, c) == Ordering::Less,
{
    lemma_seq_lt_irreflexive(a);
    lemma_seq_lt_pair(a, b);
    lemma_seq_lt_pair(b, c);
    lemma_seq_lt_pair(a, c);
    if order_index(a) is Some && order_index(a) == order_index(b) {
        lemma_order_index_same(a, b);
    }
    if order_index(b) is Some && order_index(b) == order_index(c) {
        lemma_order_index_same(b, c);
    }
    if order_index(a) is Some && order_index(a) == order_index(c) {
        lemma_order_index_same(a, c);
    }
    if seq_lt(a, b) && seq_lt(b, c) {
        lemma_seq_lt_trans(a, b, c);
    }
}

} // verus!
