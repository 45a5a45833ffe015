//! Statement-level edits of a Turtle document: finding an entity, inserting predicate/object
//! pairs into its declaration block, and removing matching objects from its statements.
use vstd::prelude::*;
use crate::block::{remove_all_objects, remove_all_objects_exec, remove_match, remove_match_exec};
use crate::error::{err2, make_err, outcome, ErrKind, OwlError, Outcome};
use crate::iri::{iri_to_turtle_term, owl_thing, safe_iri, safe_iri_chars, turtle_term, unsafe_iri_detail, debug_text};
use crate::literal::{escape_turtle, escape_turtle_string, normalize_ws, normalize_ws_exec};
use crate::namespaces::Namespaces;
use crate::span::{
    curie_form, curie_form_exec, default_prefix_form, default_prefix_form_exec, entity_ranges,
    entity_ranges_exec, namespaces_for, namespaces_for_chars, pairs_int, primary_block,
    primary_block_exec, strip_trailing, strip_trailing_exec,
};
use crate::text::{
    chars_of, last_index, last_index_exec, lemma_last_index_bounds, lemma_line_bounds,
    lemma_skip_ws_bounds, lemma_trim_end_bounds, line_at, line_bounds, next_line_start,
    next_ws, next_ws_exec, push_all, push_str, seq_eq, skip_ws, skip_ws_exec, slice_chars,
    starts_with, starts_with_exec, trim, trim_end, trim_end_exec, trim_exec,
};

verus! {

/// `tr` is `subject`, or starts with `subject` followed by a space, tab, `;` or `.`
/// (`line_starts_with_subject`).
pub open spec fn subject_line(tr: Seq<char>, subject: Seq<char>) -> bool {
    tr == subject || (starts_with(tr, subject) && tr.len() > subject.len() && (tr[subject.len() as int]
        == ' ' || tr[subject.len() as int] == '\t' || tr[subject.len() as int] == ';'
        || tr[subject.len() as int] == '.'))
}

/// Spellings searched for an entity's subject lines: the raw IRI, `<IRI>`, the default-prefix
/// form and the longest-prefix CURIE.
pub open spec fn entity_spellings(iri: Seq<char>, ns: Seq<(Seq<char>, Seq<char>)>) -> Seq<Seq<char>> {
    let s = seq![iri, "<"@ + iri + ">"@];
    let s1 = match default_prefix_form(iri, ns) {
        Some(d) => s.push(d),
        None => s,
    };
    match curie_form(iri, ns) {
        Some(c) => s1.push(c),
        None => s1,
    }
}

/// Some line from `i` on starts (after leading whitespace) with one of `sp` as its subject.
pub open spec fn entity_line_from(t: Seq<char>, i: int, sp: Seq<Seq<char>>) -> bool
    decreases t.len() + 1 - i,
{
    if i < 0 || i >= t.len() {
        false
    } else {
        proof {
            lemma_line_bounds(t, i);
        }
        let line = line_at(t, i);
        let tr = line.skip(skip_ws(line, 0));
        (exists|k: int| 0 <= k < sp.len() && subject_line(tr, #[trigger] sp[k])) || entity_line_from(
            t,
            next_line_start(t, i),
            sp,
        )
    }
}

/// The document has a subject line for `iri` (`text_contains_entity`), using the declared
/// namespaces extended with the document's own prefixes.
pub open spec fn contains_entity(t: Seq<char>, iri: Seq<char>, ns: Seq<(Seq<char>, Seq<char>)>) -> bool {
    entity_line_from(t, 0, entity_spellings(iri, namespaces_for(t, ns)))
}

fn subject_line_exec(tr: &[char], subject: &[char]) -> (r: bool)
    ensures
        r == subject_line(tr@, subject@),
{
    if seq_eq(tr, subject) {
        return true;
    }
    if !starts_with_exec(tr, subject) || tr.len() <= subject.len() {
        return false;
    }
    let c = tr[subject.len()];
    c == ' ' || c == '\t' || c == ';' || c == '.'
}

fn spellings_exec(iri: &[char], ns: &Namespaces) -> (r: Vec<Vec<char>>)
    ensures
        r@.map_values(|v: Vec<char>| v@) == entity_spellings(iri@, ns@),
{
    let mut out: Vec<Vec<char>> = Vec::new();
    out.push(slice_chars(iri, 0, iri.len()));
    out.push(crate::iri::bracketed(iri));
    let ghost s = seq![iri@, "<"@ + iri@ + ">"@];
    assert(out@[0]@ =~= iri@);
    assert(out@.map_values(|v: Vec<char>| v@) =~= s);
    match default_prefix_form_exec(iri, ns) {
        Some(d) => {
            out.push(d);
        },
        None => {},
    }
    let ghost s1 = out@.map_values(|v: Vec<char>| v@);
    assert(s1 =~= match default_prefix_form(iri@, ns@) {
        Some(d) => s.push(d),
        None => s,
    });
    match curie_form_exec(iri, ns) {
        Some(c) => {
            out.push(c);
        },
        None => {},
    }
    assert(out@.map_values(|v: Vec<char>| v@) =~= match curie_form(iri@, ns@) {
        Some(c) => s1.push(c),
        None => s1,
    });
    out
}

/// Whether the document has a subject line for `iri` (`text_contains_entity`).
pub fn contains_entity_exec(t: &[char], iri: &[char], ns: &Namespaces) -> (r: bool)
    ensures
        r == contains_entity(t@, iri@, ns@),
{
    let ns2 = namespaces_for_chars(t, ns);
    let sp = spellings_exec(iri, &ns2);
    let ghost spv = sp@.map_values(|v: Vec<char>| v@);
    let mut i: usize = 0;
    while i < t.len()
        invariant
            i <= t.len(),
            spv == sp@.map_values(|v: Vec<char>| v@),
            spv == entity_spellings(iri@, namespaces_for(t@, ns@)),
            contains_entity(t@, iri@, ns@) == entity_line_from(t@, i as int, spv),
        decreases t.len() - i,
    {
        let (ce, nl) = line_bounds(t, i);
        proof {
            lemma_line_bounds(t@, i as int);
        }
        let line = slice_chars(t, i, ce);
        assert(line@ == line_at(t@, i as int));
        let k0 = skip_ws_exec(line.as_slice(), 0);
        proof {
            lemma_skip_ws_bounds(line@, 0);
        }
        let tr = slice_chars(line.as_slice(), k0, line.len());
        assert(tr@ == line@.skip(k0 as int));
        let mut k: usize = 0;
        while k < sp.len()
            invariant
                k <= sp@.len(),
                i < t.len(),
                spv == sp@.map_values(|v: Vec<char>| v@),
                tr@ == line_at(t@, i as int).skip(skip_ws(line_at(t@, i as int), 0)),
                contains_entity(t@, iri@, ns@) == entity_line_from(t@, i as int, spv),
                forall|j: int| 0 <= j < k ==> !subject_line(tr@, #[trigger] spv[j]),
            decreases sp@.len() - k,
        {
            if subject_line_exec(tr.as_slice(), sp[k].as_slice()) {
                assert(subject_line(tr@, spv[k as int]));
                assert(entity_line_from(t@, i as int, spv));
                return true;
            }
            assert(!subject_line(tr@, spv[k as int]));
            k += 1;
        }
        if nl >= t.len() {
            assert(entity_line_from(t@, nl + 1, spv) == false);
            i = t.len();
        } else {
            i = nl + 1;
        }
    }
    false
}

/// `t` with the characters `s..e` (clamped to the text) replaced by `rep` (`replace_range`).
pub open spec fn replace_range(t: Seq<char>, s: int, e: int, rep: Seq<char>) -> Seq<char> {
    let s1 = if s < t.len() { s } else { t.len() as int };
    let e1 = if e < s1 { s1 } else if e < t.len() { e } else { t.len() as int };
    t.take(s1) + rep + t.skip(e1)
}

pub fn replace_range_exec(t: &[char], s: usize, e: usize, rep: &[char]) -> (r: Vec<char>)
    ensures
        r@ == replace_range(t@, s as int, e as int, rep@),
{
    let s1 = if s < t.len() { s } else { t.len() };
    let e1 = if e < s1 { s1 } else if e < t.len() { e } else { t.len() };
    let mut out = slice_chars(t, 0, s1);
    push_all(&mut out, rep);
    let tail = slice_chars(t, e1, t.len());
    push_all(&mut out, tail.as_slice());
    assert(out@ =~= replace_range(t@, s as int, e as int, rep@));
    out
}

/// Primary block after inserting `ins` before its final `.` (`insert_multiline_into_entity_block`).
pub open spec fn insert_in_block(block: Seq<char>, ins: Seq<char>) -> Seq<char> {
    let tr = trim_end(block);
    if tr.len() > 0 && tr.last() == '.' {
        let pos = last_index(tr, '.');
        trim_end(block.take(pos)) + " ;\n"@ + ins + "."@
    } else if !(tr.len() > 0 && tr.last() == ';') {
        block + " ;\n"@ + ins
    } else {
        block + ins
    }
}

/// Insert `ins` into the primary declaration block of `iri`.
pub open spec fn insert_multiline_spec(
    t: Seq<char>,
    iri: Seq<char>,
    ins: Seq<char>,
    ns: Seq<(Seq<char>, Seq<char>)>,
) -> Outcome {
    match primary_block(t, iri, namespaces_for(t, ns)) {
        None => Err((ErrKind::EntityNotFound, iri)),
        Some((s, e)) => Ok(replace_range(t, s, e, insert_in_block(t.subrange(s, e), ins))),
    }
}

fn insert_in_block_exec(block: &[char], ins: &[char]) -> (r: Vec<char>)
    ensures
        r@ == insert_in_block(block@, ins@),
{
    let tr = trim_end_exec(block, block.len());
    proof {
        lemma_trim_end_bounds(block@, block@.len() as int);
    }
    let trv = slice_chars(block, 0, tr);
    assert(trv@ == trim_end(block@));
    let n = trv.len();
    if n > 0 && trv[n - 1] == '.' {
        let pos = match last_index_exec(trv.as_slice(), '.') {
            Some(p) => p,
            None => {
                proof {
                    lemma_last_index_bounds(trv@, '.');
                }
                0
            },
        };
        proof {
            lemma_last_index_bounds(trv@, '.');
        }
        let head = slice_chars(block, 0, pos);
        assert(head@ == block@.take(pos as int));
        let hb = trim_end_exec(head.as_slice(), head.len());
        proof {
            lemma_trim_end_bounds(head@, head@.len() as int);
        }
        let mut out = slice_chars(head.as_slice(), 0, hb);
        assert(out@ == trim_end(block@.take(pos as int)));
        push_str(&mut out, " ;\n");
        push_all(&mut out, ins);
        push_str(&mut out, ".");
        out
    } else if !(n > 0 && trv[n - 1] == ';') {
        let mut out = slice_chars(block, 0, block.len());
        assert(out@ =~= block@);
        push_str(&mut out, " ;\n");
        push_all(&mut out, ins);
        out
    } else {
        let mut out = slice_chars(block, 0, block.len());
        assert(out@ =~= block@);
        push_all(&mut out, ins);
        out
    }
}

pub fn insert_multiline_exec(t: &[char], iri: &[char], ins: &[char], ns: &Namespaces) -> (r: Result<
    Vec<char>,
    OwlError,
>)
    ensures
        outcome(r) == insert_multiline_spec(t@, iri@, ins@, ns@),
{
    let ns2 = namespaces_for_chars(t, ns);
    match primary_block_exec(t, iri, &ns2) {
        None => Err(make_err(ErrKind::EntityNotFound, iri)),
        Some((s, e)) => {
            let block = slice_chars(t, s, e);
            let nb = insert_in_block_exec(block.as_slice(), ins);
            Ok(replace_range_exec(t, s, e, nb.as_slice()))
        },
    }
}

/// Predicate and object of a one-line insertion `pred object ;` (`parse_simple_insertion`).
pub open spec fn simple_insertion(ins: Seq<char>) -> Option<(Seq<char>, Seq<char>)> {
    if ins.len() == 0 {
        None
    } else {
        let l = trim(strip_trailing(trim(line_at(ins, 0)), ';'));
        let k = next_ws(l, 0);
        if k >= l.len() {
            None
        } else {
            let pred = l.take(k);
            let obj = trim(l.skip(k + 1));
            if pred.len() == 0 || obj.len() == 0 {
                None
            } else {
                Some((pred, obj))
            }
        }
    }
}

fn simple_insertion_exec(ins: &[char]) -> (r: Option<(Vec<char>, Vec<char>)>)
    ensures
        match r {
            Some((p, o)) => simple_insertion(ins@) == Some((p@, o@)),
            None => simple_insertion(ins@) is None,
        },
{
    if ins.len() == 0 {
        return None;
    }
    let (ce, _nl) = line_bounds(ins, 0);
    let first = slice_chars(ins, 0, ce);
    let a = trim_exec(first.as_slice());
    let b = strip_trailing_exec(a.as_slice(), ';');
    let l = trim_exec(b.as_slice());
    let k = next_ws_exec(l.as_slice(), 0);
    if k >= l.len() {
        return None;
    }
    let pred = slice_chars(l.as_slice(), 0, k);
    let rest = slice_chars(l.as_slice(), k + 1, l.len());
    let obj = trim_exec(rest.as_slice());
    if pred.len() == 0 || obj.len() == 0 {
        return None;
    }
    Some((pred, obj))
}

/// Some statement of `iri` in `ranges` has `pred` with an object matching `target`.
pub open spec fn some_range_matches(
    t: Seq<char>,
    ranges: Seq<(int, int)>,
    pred: Seq<char>,
    target: Seq<char>,
) -> bool {
    exists|k: int|
        0 <= k < ranges.len() && remove_match(
            t.subrange((#[trigger] ranges[k]).0, ranges[k].1),
            pred,
            0,
            target,
        ) is Some
}

/// Some statement of `iri` already has `pred` with object `obj` (`entity_has_predicate_object`).
pub open spec fn has_predicate_object(
    t: Seq<char>,
    iri: Seq<char>,
    pred: Seq<char>,
    obj: Seq<char>,
    ns: Seq<(Seq<char>, Seq<char>)>,
) -> bool {
    some_range_matches(t, entity_ranges(t, iri, namespaces_for(t, ns)), pred, normalize_ws(trim(obj)))
}

fn has_predicate_object_exec(t: &[char], iri: &[char], pred: &[char], obj: &[char], ns: &Namespaces) -> (r: bool)
    ensures
        r == has_predicate_object(t@, iri@, pred@, obj@, ns@),
{
    let ns2 = namespaces_for_chars(t, ns);
    let ranges = entity_ranges_exec(t, iri, &ns2);
    let tobj = trim_exec(obj);
    let target = normalize_ws_exec(tobj.as_slice());
    let ghost rs = pairs_int(ranges@);
    let mut k: usize = 0;
    while k < ranges.len()
        invariant
            k <= ranges@.len(),
            rs == pairs_int(ranges@),
            rs == entity_ranges(t@, iri@, namespaces_for(t@, ns@)),
            target@ == normalize_ws(trim(obj@)),
            forall|j: int| 0 <= j < ranges@.len() ==> (#[trigger] ranges@[j]).0 < ranges@[j].1 <= t.len(),
            forall|j: int|
                0 <= j < k ==> remove_match(
                    t@.subrange((#[trigger] rs[j]).0, rs[j].1),
                    pred@,
                    0,
                    target@,
                ) is None,
        decreases ranges@.len() - k,
    {
        let (s, e) = ranges[k];
        let block = slice_chars(t, s, e);
        assert(rs[k as int] == (s as int, e as int));
        if remove_match_exec(block.as_slice(), pred, 0, target.as_slice()).is_some() {
            return true;
        }
        k += 1;
    }
    false
}

/// Insert a one-line predicate/object pair into the primary block of `iri`, unless an equal
/// pair is already present (then an error when `dup_err`, else no change)
/// (`insert_into_entity_block`).
pub open spec fn insert_into_spec(
    t: Seq<char>,
    iri: Seq<char>,
    ins: Seq<char>,
    ns: Seq<(Seq<char>, Seq<char>)>,
    dup_err: bool,
) -> Outcome {
    match simple_insertion(ins) {
        Some((p, o)) => if has_predicate_object(t, iri, p, o, ns) {
            if dup_err {
                Err((ErrKind::PatchInvalid, "duplicate "@ + p + " axiom already present: "@ + o))
            } else {
                Ok(t)
            }
        } else {
            insert_multiline_spec(t, iri, ins, ns)
        },
        None => insert_multiline_spec(t, iri, ins, ns),
    }
}

pub fn insert_into_exec(t: &[char], iri: &[char], ins: &[char], ns: &Namespaces, dup_err: bool) -> (r: Result<
    Vec<char>,
    OwlError,
>)
    ensures
        outcome(r) == insert_into_spec(t@, iri@, ins@, ns@, dup_err),
{
    match simple_insertion_exec(ins) {
        Some((p, o)) => {
            if has_predicate_object_exec(t, iri, p.as_slice(), o.as_slice(), ns) {
                if dup_err {
                    let mut d = chars_of("duplicate ");
                    push_all(&mut d, p.as_slice());
                    push_str(&mut d, " axiom already present: ");
                    push_all(&mut d, o.as_slice());
                    return Err(make_err(ErrKind::PatchInvalid, d.as_slice()));
                }
                let same = slice_chars(t, 0, t.len());
                assert(same@ =~= t@);
                return Ok(same);
            }
            insert_multiline_exec(t, iri, ins, ns)
        },
        None => insert_multiline_exec(t, iri, ins, ns),
    }
}

/// `    pred "escaped" ;` line for a literal value.
pub open spec fn literal_line(pred: Seq<char>, value: Seq<char>) -> Seq<char> {
    "    "@ + pred + " \""@ + escape_turtle(value) + "\" ;\n"@
}

/// `    pred object ;` line.
pub open spec fn object_line(pred: Seq<char>, obj: Seq<char>) -> Seq<char> {
    "    "@ + pred + " "@ + obj + " ;\n"@
}

/// Add a literal-valued annotation; an existing equal one is an error (`add_annotation_triple`).
pub open spec fn add_literal_spec(
    t: Seq<char>,
    iri: Seq<char>,
    pred: Seq<char>,
    value: Seq<char>,
    ns: Seq<(Seq<char>, Seq<char>)>,
    dup_err: bool,
) -> Outcome {
    if !contains_entity(t, iri, ns) {
        Err((ErrKind::EntityNotFound, iri))
    } else {
        insert_into_spec(t, iri, literal_line(pred, value), ns, dup_err)
    }
}

/// Add a `pred object` pair to an existing entity; an equal pair leaves the text unchanged
/// (`add_object_triple`).
pub open spec fn add_object_spec(
    t: Seq<char>,
    iri: Seq<char>,
    pred: Seq<char>,
    obj: Seq<char>,
    ns: Seq<(Seq<char>, Seq<char>)>,
) -> Outcome {
    if !contains_entity(t, iri, ns) {
        Err((ErrKind::EntityNotFound, iri))
    } else {
        insert_into_spec(t, iri, object_line(pred, obj), ns, false)
    }
}

pub fn add_literal_exec(
    t: &[char],
    iri: &[char],
    pred: &[char],
    value: &[char],
    ns: &Namespaces,
    dup_err: bool,
) -> (r: Result<Vec<char>, OwlError>)
    ensures
        outcome(r) == add_literal_spec(t@, iri@, pred@, value@, ns@, dup_err),
{
    if !contains_entity_exec(t, iri, ns) {
        return Err(make_err(ErrKind::EntityNotFound, iri));
    }
    let esc = escape_turtle_string(value);
    let mut line = chars_of("    ");
    push_all(&mut line, pred);
    push_str(&mut line, " \"");
    push_all(&mut line, esc.as_slice());
    push_str(&mut line, "\" ;\n");
    insert_into_exec(t, iri, line.as_slice(), ns, dup_err)
}

pub fn add_object_exec(t: &[char], iri: &[char], pred: &[char], obj: &[char], ns: &Namespaces) -> (r: Result<
    Vec<char>,
    OwlError,
>)
    ensures
        outcome(r) == add_object_spec(t@, iri@, pred@, obj@, ns@),
{
    if !contains_entity_exec(t, iri, ns) {
        return Err(make_err(ErrKind::EntityNotFound, iri));
    }
    let mut line = chars_of("    ");
    push_all(&mut line, pred);
    push_str(&mut line, " ");
    push_all(&mut line, obj);
    push_str(&mut line, " ;\n");
    insert_into_exec(t, iri, line.as_slice(), ns, false)
}

/// `s` without its leading run of `c`.
pub open spec fn strip_leading(s: Seq<char>, c: char) -> Seq<char>
    decreases s.len(),
{
    if s.len() > 0 && s[0] == c {
        strip_leading(s.drop_first(), c)
    } else {
        s
    }
}

/// `s` without its leading and trailing runs of `c` (`trim_matches`).
pub open spec fn strip_both(s: Seq<char>, c: char) -> Seq<char> {
    strip_trailing(strip_leading(s, c), c)
}

pub fn strip_both_exec(s: &[char], c: char) -> (r: Vec<char>)
    ensures
        r@ == strip_both(s@, c),
{
    let mut k: usize = 0;
    assert(s@.skip(0) =~= s@);
    while k < s.len() && s[k] == c
        invariant
            k <= s.len(),
            strip_leading(s@, c) == strip_leading(s@.skip(k as int), c),
        decreases s.len() - k,
    {
        assert(s@.skip(k as int).drop_first() =~= s@.skip(k + 1));
        k += 1;
    }
    let rest = slice_chars(s, k, s.len());
    assert(rest@ =~= s@.skip(k as int));
    strip_trailing_exec(rest.as_slice(), c)
}

/// A literal value as given by a caller: trimmed, then stripped of surrounding `"` and `'`.
pub open spec fn bare_value(v: Seq<char>) -> Seq<char> {
    strip_both(strip_both(trim(v), '"'), '\'')
}

/// Result of removing the first of `targets` that matches in `block`.
pub open spec fn first_target_removal(
    block: Seq<char>,
    pred: Seq<char>,
    mode: u8,
    targets: Seq<Seq<char>>,
) -> Option<Seq<char>>
    decreases targets.len(),
{
    if targets.len() == 0 {
        None
    } else {
        match remove_match(block, pred, mode, targets[0]) {
            Some(nb) => Some(nb),
            None => first_target_removal(block, pred, mode, targets.drop_first()),
        }
    }
}

/// The text after the first statement in `ranges` that loses a matching object.
pub open spec fn first_removal(
    t: Seq<char>,
    ranges: Seq<(int, int)>,
    pred: Seq<char>,
    mode: u8,
    targets: Seq<Seq<char>>,
) -> Option<Seq<char>>
    decreases ranges.len(),
{
    if ranges.len() == 0 {
        None
    } else {
        match first_target_removal(t.subrange(ranges[0].0, ranges[0].1), pred, mode, targets) {
            Some(nb) => Some(replace_range(t, ranges[0].0, ranges[0].1, nb)),
            None => first_removal(t, ranges.drop_first(), pred, mode, targets),
        }
    }
}

/// Remove one `pred` object matching one of `targets` from the statements of `iri`.
pub open spec fn remove_in_statements(
    t: Seq<char>,
    iri: Seq<char>,
    pred: Seq<char>,
    mode: u8,
    targets: Seq<Seq<char>>,
    ns: Seq<(Seq<char>, Seq<char>)>,
) -> Outcome {
    let ranges = entity_ranges(t, iri, namespaces_for(t, ns));
    if ranges.len() == 0 {
        Err((ErrKind::EntityNotFound, iri))
    } else {
        match first_removal(t, ranges, pred, mode, targets) {
            Some(n) => Ok(n),
            None => Err((ErrKind::ManchesterInvalid, "no matching "@ + pred + " axiom"@)),
        }
    }
}

pub fn remove_in_statements_exec(
    t: &[char],
    iri: &[char],
    pred: &[char],
    mode: u8,
    targets: &Vec<Vec<char>>,
    ns: &Namespaces,
) -> (r: Result<Vec<char>, OwlError>)
    ensures
        outcome(r) == remove_in_statements(
            t@,
            iri@,
            pred@,
            mode,
            targets@.map_values(|v: Vec<char>| v@),
            ns@,
        ),
{
    let ghost tg = targets@.map_values(|v: Vec<char>| v@);
    let ns2 = namespaces_for_chars(t, ns);
    let ranges = entity_ranges_exec(t, iri, &ns2);
    if ranges.len() == 0 {
        return Err(make_err(ErrKind::EntityNotFound, iri));
    }
    let ghost rs = pairs_int(ranges@);
    let mut k: usize = 0;
    assert(rs.skip(0) =~= rs);
    while k < ranges.len()
        invariant
            k <= ranges@.len(),
            rs == pairs_int(ranges@),
            rs == entity_ranges(t@, iri@, namespaces_for(t@, ns@)),
            rs.len() > 0,
            tg == targets@.map_values(|v: Vec<char>| v@),
            forall|j: int| 0 <= j < ranges@.len() ==> (#[trigger] ranges@[j]).0 < ranges@[j].1 <= t.len(),
            first_removal(t@, rs, pred@, mode, tg) == first_removal(
                t@,
                rs.skip(k as int),
                pred@,
                mode,
                tg,
            ),
        decreases ranges@.len() - k,
    {
        let (s, e) = ranges[k];
        assert(rs.skip(k as int)[0] == (s as int, e as int));
        assert(rs.skip(k as int).drop_first() =~= rs.skip(k + 1));
        let block = slice_chars(t, s, e);
        let mut m: usize = 0;
        assert(tg.skip(0) =~= tg);
        while m < targets.len()
            invariant
                m <= targets@.len(),
                k < ranges@.len(),
                rs == pairs_int(ranges@),
                rs == entity_ranges(t@, iri@, namespaces_for(t@, ns@)),
                rs.len() > 0,
                block@ == t@.subrange(s as int, e as int),
                rs.skip(k as int)[0] == (s as int, e as int),
                s < e <= t.len(),
                first_removal(t@, rs, pred@, mode, tg) == first_removal(
                    t@,
                    rs.skip(k as int),
                    pred@,
                    mode,
                    tg,
                ),
                tg == targets@.map_values(|v: Vec<char>| v@),
                first_target_removal(block@, pred@, mode, tg) == first_target_removal(
                    block@,
                    pred@,
                    mode,
                    tg.skip(m as int),
                ),
            decreases targets@.len() - m,
        {
            assert(tg.skip(m as int)[0] == targets@[m as int]@);
            assert(tg.skip(m as int).drop_first() =~= tg.skip(m + 1));
            match remove_match_exec(block.as_slice(), pred, mode, targets[m].as_slice()) {
                Some(nb) => {
                    assert(first_target_removal(block@, pred@, mode, tg.skip(m as int)) == Some(
                        nb@,
                    ));
                    let ghost rk = rs.skip(k as int);
                    assert(rk.len() > 0);
                    assert(rk[0].0 == s as int && rk[0].1 == e as int);
                    assert(t@.subrange(rk[0].0, rk[0].1) == block@);
                    assert(first_target_removal(t@.subrange(rk[0].0, rk[0].1), pred@, mode, tg)
                        == Some(nb@));
                    assert(first_removal(t@, rk, pred@, mode, tg) == Some(
                        replace_range(t@, s as int, e as int, nb@),
                    ));
                    return Ok(replace_range_exec(t, s, e, nb.as_slice()));
                },
                None => {},
            }
            m += 1;
        }
        assert(tg.skip(m as int) =~= Seq::<Seq<char>>::empty());
        k += 1;
    }
    assert(rs.skip(k as int) =~= Seq::<(int, int)>::empty());
    let mut d = chars_of("no matching ");
    push_all(&mut d, pred);
    push_str(&mut d, " axiom");
    Err(make_err(ErrKind::ManchesterInvalid, d.as_slice()))
}

/// Remove `pred obj` from a statement of `iri` (`remove_predicate_object_any_statement`).
pub open spec fn remove_object_spec(
    t: Seq<char>,
    iri: Seq<char>,
    pred: Seq<char>,
    obj: Seq<char>,
    ns: Seq<(Seq<char>, Seq<char>)>,
) -> Outcome {
    remove_in_statements(t, iri, pred, 0, seq![normalize_ws(trim(obj))], ns)
}

pub fn remove_object_exec(t: &[char], iri: &[char], pred: &[char], obj: &[char], ns: &Namespaces) -> (r: Result<
    Vec<char>,
    OwlError,
>)
    ensures
        outcome(r) == remove_object_spec(t@, iri@, pred@, obj@, ns@),
{
    let o = trim_exec(obj);
    let n = normalize_ws_exec(o.as_slice());
    let mut targets: Vec<Vec<char>> = Vec::new();
    targets.push(n);
    assert(targets@.map_values(|v: Vec<char>| v@) =~= seq![normalize_ws(trim(obj@))]);
    remove_in_statements_exec(t, iri, pred, 0, &targets, ns)
}

/// Remove the literal of `pred` whose mode value is `value` (`remove_matching_predicate_any`).
pub open spec fn remove_literal_spec(
    t: Seq<char>,
    iri: Seq<char>,
    pred: Seq<char>,
    value: Seq<char>,
    ns: Seq<(Seq<char>, Seq<char>)>,
) -> Outcome {
    remove_in_statements(t, iri, pred, 1, seq![normalize_ws(bare_value(value))], ns)
}

pub fn remove_literal_exec(t: &[char], iri: &[char], pred: &[char], value: &[char], ns: &Namespaces) -> (r: Result<
    Vec<char>,
    OwlError,
>)
    ensures
        outcome(r) == remove_literal_spec(t@, iri@, pred@, value@, ns@),
{
    let a = trim_exec(value);
    let b = strip_both_exec(a.as_slice(), '"');
    let c = strip_both_exec(b.as_slice(), '\'');
    let n = normalize_ws_exec(c.as_slice());
    let mut targets: Vec<Vec<char>> = Vec::new();
    targets.push(n);
    assert(targets@.map_values(|v: Vec<char>| v@) =~= seq![normalize_ws(bare_value(value@))]);
    remove_in_statements_exec(t, iri, pred, 1, &targets, ns)
}

/// `s` with `x` appended unless already present.
pub open spec fn push_new(s: Seq<Seq<char>>, x: Seq<char>) -> Seq<Seq<char>> {
    if s.contains(x) {
        s
    } else {
        s.push(x)
    }
}

/// Spellings of an IRI object (`iri_turtle_term_forms`): `<IRI>`, the CURIE, the
/// default-prefix form and, for `owl:Thing`, its usual CURIE.
pub open spec fn term_forms(iri: Seq<char>, ns: Seq<(Seq<char>, Seq<char>)>) -> Seq<Seq<char>> {
    let f0 = seq!["<"@ + iri + ">"@];
    let f1 = match curie_form(iri, ns) {
        Some(c) => push_new(f0, c),
        None => f0,
    };
    let f2 = match default_prefix_form(iri, ns) {
        Some(d) => push_new(f1, d),
        None => f1,
    };
    if iri == owl_thing() {
        push_new(f2, "owl:Thing"@)
    } else {
        f2
    }
}

fn push_new_exec(v: &mut Vec<Vec<char>>, x: Vec<char>)
    ensures
        final(v)@.map_values(|w: Vec<char>| w@) == push_new(old(v)@.map_values(|w: Vec<char>| w@), x@),
{
    let ghost s = v@.map_values(|w: Vec<char>| w@);
    let mut k: usize = 0;
    while k < v.len()
        invariant
            k <= v@.len(),
            s == v@.map_values(|w: Vec<char>| w@),
            forall|j: int| 0 <= j < k ==> s[j] != x@,
        decreases v@.len() - k,
    {
        if seq_eq(v[k].as_slice(), x.as_slice()) {
            assert(s[k as int] == x@);
            assert(s.contains(x@));
            return;
        }
        k += 1;
    }
    assert(!s.contains(x@));
    v.push(x);
    assert(v@.map_values(|w: Vec<char>| w@) =~= s.push(x@));
}

/// Normalised targets of the spellings of an IRI.
pub open spec fn form_targets(forms: Seq<Seq<char>>) -> Seq<Seq<char>> {
    forms.map_values(|f: Seq<char>| normalize_ws(trim(f)))
}

/// Remove `pred` with an IRI object written in any of its spellings (`remove_predicate_iri_object`).
pub open spec fn remove_iri_object_spec(
    t: Seq<char>,
    iri: Seq<char>,
    pred: Seq<char>,
    obj_iri: Seq<char>,
    ns: Seq<(Seq<char>, Seq<char>)>,
) -> Outcome {
    if !safe_iri(obj_iri) {
        Err((ErrKind::PatchInvalid, unsafe_iri_detail(obj_iri)))
    } else {
        remove_in_statements(
            t,
            iri,
            pred,
            0,
            form_targets(term_forms(obj_iri, namespaces_for(t, ns))),
            ns,
        )
    }
}

pub fn remove_iri_object_exec(t: &[char], iri: &[char], pred: &[char], obj_iri: &[char], ns: &Namespaces) -> (r: Result<
    Vec<char>,
    OwlError,
>)
    ensures
        outcome(r) == remove_iri_object_spec(t@, iri@, pred@, obj_iri@, ns@),
{
    if !safe_iri_chars(obj_iri) {
        let d = debug_text(obj_iri);
        return Err(
            err2(ErrKind::PatchInvalid, "IRI contains characters that cannot be safely written to Turtle: ", d.as_slice()),
        );
    }
    let ns2 = namespaces_for_chars(t, ns);
    let mut forms: Vec<Vec<char>> = Vec::new();
    forms.push(crate::iri::bracketed(obj_iri));
    let ghost f0 = seq!["<"@ + obj_iri@ + ">"@];
    assert(forms@.map_values(|w: Vec<char>| w@) =~= f0);
    match curie_form_exec(obj_iri, &ns2) {
        Some(c) => push_new_exec(&mut forms, c),
        None => {},
    }
    match default_prefix_form_exec(obj_iri, &ns2) {
        Some(d) => push_new_exec(&mut forms, d),
        None => {},
    }
    let thing = chars_of("http://www.w3.org/2002/07/owl#Thing");
    if seq_eq(obj_iri, thing.as_slice()) {
        push_new_exec(&mut forms, chars_of("owl:Thing"));
    }
    let ghost fs = forms@.map_values(|w: Vec<char>| w@);
    assert(fs == term_forms(obj_iri@, namespaces_for(t@, ns@)));
    let mut targets: Vec<Vec<char>> = Vec::new();
    let mut k: usize = 0;
    while k < forms.len()
        invariant
            k <= forms@.len(),
            fs == forms@.map_values(|w: Vec<char>| w@),
            targets@.map_values(|w: Vec<char>| w@) =~= form_targets(fs).take(k as int),
        decreases forms@.len() - k,
    {
        let a = trim_exec(forms[k].as_slice());
        let n = normalize_ws_exec(a.as_slice());
        targets.push(n);
        assert(form_targets(fs).take(k + 1) =~= form_targets(fs).take(k as int).push(
            normalize_ws(trim(fs[k as int])),
        ));
        k += 1;
    }
    assert(form_targets(fs).take(k as int) =~= form_targets(fs));
    remove_in_statements_exec(t, iri, pred, 0, &targets, ns)
}

/// The text after the first statement in `ranges` that changes when every `pred` object is removed.
pub open spec fn first_changed(t: Seq<char>, ranges: Seq<(int, int)>, pred: Seq<char>) -> Option<
    Seq<char>,
>
    decreases ranges.len(),
{
    if ranges.len() == 0 {
        None
    } else {
        let b = t.subrange(ranges[0].0, ranges[0].1);
        let nb = remove_all_objects(b, pred);
        if nb != b {
            Some(replace_range(t, ranges[0].0, ranges[0].1, nb))
        } else {
            first_changed(t, ranges.drop_first(), pred)
        }
    }
}

/// Rounds of `first_changed` over the statements of `iri`, recomputed each round, until no
/// statement changes (at most `fuel` rounds).
pub open spec fn remove_all_rounds(
    t: Seq<char>,
    iri: Seq<char>,
    pred: Seq<char>,
    ns: Seq<(Seq<char>, Seq<char>)>,
    fuel: nat,
) -> Seq<char>
    decreases fuel,
{
    if fuel == 0 {
        t
    } else {
        match first_changed(t, entity_ranges(t, iri, namespaces_for(t, ns)), pred) {
            None => t,
            Some(n) => remove_all_rounds(n, iri, pred, ns, (fuel - 1) as nat),
        }
    }
}

/// Remove every `pred` object from the statements of `iri` (`remove_all_predicate_any_statement`);
/// every round shortens the text, so its length bounds the rounds.
pub open spec fn remove_all_spec(
    t: Seq<char>,
    iri: Seq<char>,
    pred: Seq<char>,
    ns: Seq<(Seq<char>, Seq<char>)>,
) -> Seq<char> {
    remove_all_rounds(t, iri, pred, ns, (t.len() + 1) as nat)
}

fn first_changed_exec(t: &[char], ranges: &Vec<(usize, usize)>, pred: &[char]) -> (r: Option<Vec<char>>)
    requires
        forall|j: int| 0 <= j < ranges@.len() ==> (#[trigger] ranges@[j]).0 < ranges@[j].1 <= t.len(),
    ensures
        match r {
            Some(v) => first_changed(t@, pairs_int(ranges@), pred@) == Some(v@),
            None => first_changed(t@, pairs_int(ranges@), pred@) is None,
        },
{
    let ghost rs = pairs_int(ranges@);
    let mut k: usize = 0;
    assert(rs.skip(0) =~= rs);
    while k < ranges.len()
        invariant
            k <= ranges@.len(),
            rs == pairs_int(ranges@),
            forall|j: int| 0 <= j < ranges@.len() ==> (#[trigger] ranges@[j]).0 < ranges@[j].1 <= t.len(),
            first_changed(t@, rs, pred@) == first_changed(t@, rs.skip(k as int), pred@),
        decreases ranges@.len() - k,
    {
        let (s, e) = ranges[k];
        assert(rs.skip(k as int)[0] == (s as int, e as int));
        assert(rs.skip(k as int).drop_first() =~= rs.skip(k + 1));
        let block = slice_chars(t, s, e);
        let nb = remove_all_objects_exec(block.as_slice(), pred);
        if !seq_eq(nb.as_slice(), block.as_slice()) {
            return Some(replace_range_exec(t, s, e, nb.as_slice()));
        }
        k += 1;
    }
    assert(rs.skip(k as int) =~= Seq::<(int, int)>::empty());
    None
}

pub fn remove_all_exec(t: &[char], iri: &[char], pred: &[char], ns: &Namespaces) -> (r: Vec<char>)
    ensures
        r@ == remove_all_spec(t@, iri@, pred@, ns@),
{
    let mut cur = slice_chars(t, 0, t.len());
    assert(cur@ =~= t@);
    let mut fuel: usize = t.len();
    let mut done = false;
    while !done
        invariant
            remove_all_spec(t@, iri@, pred@, ns@) == if done {
                cur@
            } else {
                remove_all_rounds(cur@, iri@, pred@, ns@, (fuel + 1) as nat)
            },
        decreases fuel + (if done { 0int } else { 1int }),
    {
        let ns2 = namespaces_for_chars(cur.as_slice(), ns);
        let ranges = entity_ranges_exec(cur.as_slice(), iri, &ns2);
        match first_changed_exec(cur.as_slice(), &ranges, pred) {
            None => {
                done = true;
            },
            Some(n) => {
                if fuel == 0 {
                    assert(remove_all_rounds(n@, iri@, pred@, ns@, 0) == n@);
                    cur = n;
                    done = true;
                } else {
                    cur = n;
                    fuel -= 1;
                }
            },
        }
    }
    cur
}

/// `t` ending with a newline.
pub open spec fn nl_end(t: Seq<char>) -> Seq<char> {
    if t.len() > 0 && t.last() == '\n' {
        t
    } else {
        t.push('\n')
    }
}

pub fn push_nl_end(out: &mut Vec<char>)
    ensures
        final(out)@ == nl_end(old(out)@),
{
    if !(out.len() > 0 && out[out.len() - 1] == '\n') {
        out.push('\n');
    }
}

/// Append a declaration `subject a type .` after a blank line (`create_entity`), unless the
/// entity already has a subject line.
pub open spec fn create_spec(
    t: Seq<char>,
    iri: Seq<char>,
    type_term: Seq<char>,
    ns: Seq<(Seq<char>, Seq<char>)>,
) -> Outcome {
    if contains_entity(t, iri, ns) {
        Err((ErrKind::EntityExists, iri))
    } else if !safe_iri(iri) {
        Err((ErrKind::PatchInvalid, unsafe_iri_detail(iri)))
    } else {
        Ok(nl_end(t) + "\n"@ + turtle_term(iri, ns) + " a "@ + type_term + " .\n"@)
    }
}

pub fn create_exec(t: &[char], iri: &[char], type_term: &[char], ns: &Namespaces) -> (r: Result<
    Vec<char>,
    OwlError,
>)
    ensures
        outcome(r) == create_spec(t@, iri@, type_term@, ns@),
{
    if contains_entity_exec(t, iri, ns) {
        return Err(make_err(ErrKind::EntityExists, iri));
    }
    let subject = match iri_to_turtle_term(iri, ns) {
        Ok(s) => s,
        Err(e) => {
            return Err(e);
        },
    };
    let mut out = slice_chars(t, 0, t.len());
    assert(out@ =~= t@);
    push_nl_end(&mut out);
    push_str(&mut out, "\n");
    push_all(&mut out, subject.as_slice());
    push_str(&mut out, " a ");
    push_all(&mut out, type_term);
    push_str(&mut out, " .\n");
    Ok(out)
}

/// `t` with the ranges removed from the last to the first.
pub open spec fn remove_ranges_rev(t: Seq<char>, ranges: Seq<(int, int)>) -> Seq<char>
    decreases ranges.len(),
{
    if ranges.len() == 0 {
        t
    } else {
        remove_ranges_rev(
            replace_range(t, ranges.last().0, ranges.last().1, Seq::empty()),
            ranges.drop_last(),
        )
    }
}

/// Remove every statement whose subject is `iri` (`delete_entity`).
pub open spec fn delete_spec(t: Seq<char>, iri: Seq<char>, ns: Seq<(Seq<char>, Seq<char>)>) -> Outcome {
    let r = entity_ranges(t, iri, namespaces_for(t, ns));
    if r.len() == 0 {
        Err((ErrKind::EntityNotFound, iri))
    } else {
        Ok(remove_ranges_rev(t, r))
    }
}

pub fn delete_exec(t: &[char], iri: &[char], ns: &Namespaces) -> (r: Result<Vec<char>, OwlError>)
    ensures
        outcome(r) == delete_spec(t@, iri@, ns@),
{
    let ns2 = namespaces_for_chars(t, ns);
    let ranges = entity_ranges_exec(t, iri, &ns2);
    if ranges.len() == 0 {
        return Err(make_err(ErrKind::EntityNotFound, iri));
    }
    let ghost rs = pairs_int(ranges@);
    let mut cur = slice_chars(t, 0, t.len());
    assert(cur@ =~= t@);
    let mut k = ranges.len();
    assert(rs.take(k as int) =~= rs);
    while k > 0
        invariant
            k <= ranges@.len(),
            rs == pairs_int(ranges@),
            remove_ranges_rev(t@, rs) == remove_ranges_rev(cur@, rs.take(k as int)),
        decreases k,
    {
        let (s, e) = ranges[k - 1];
        assert(rs.take(k as int).last() == (s as int, e as int));
        assert(rs.take(k as int).drop_last() =~= rs.take(k - 1));
        let empty: Vec<char> = Vec::new();
        let n = replace_range_exec(cur.as_slice(), s, e, empty.as_slice());
        assert(empty@ =~= Seq::<char>::empty());
        cur = n;
        k -= 1;
    }
    Ok(cur)
}

} // verus!
