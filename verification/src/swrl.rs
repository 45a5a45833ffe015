//! SWRL rules stored as compact JSON string literals on the ontology
//! (`<ontology> <http://ontocode.dev/ns#swrlRule> "…"^^xsd:string`).
use vstd::prelude::*;
use crate::edit::{nl_end, push_nl_end};
use crate::error::{err2, make_err, outcome, ErrKind, OwlError, Outcome};
use crate::iri::{debug_rendering, debug_text, safe_iri, safe_iri_chars};
use crate::literal::{escape_turtle, escape_turtle_string, turtle_escape_char};
use crate::prefixes::ltrim;
use crate::standalone::copy_chars;
use crate::text::{
    chars_of, contains, contains_exec, find_from, find_from_spec, lemma_find_from_none,
    lemma_line_bounds, lemma_skip_ws_bounds, line_at, line_bounds, next_line_start, push_all,
    push_str, skip_ws_exec, slice_chars, string_from, trim, trim_exec,
};

verus! {

/// Compact serialisation of a JSON text: `Ok` with the compact text, or `Err` with whether
/// parsing (`true`) or serialising (`false`) failed and the error text.
pub uninterp spec fn json_compacted(s: Seq<char>) -> Result<Seq<char>, (bool, Seq<char>)>;

/// Equality of two JSON texts as values, `None` unless both parse.
pub uninterp spec fn json_values_equal(a: Seq<char>, b: Seq<char>) -> Option<bool>;

/// `serde_json::from_str::<serde_json::Value>` followed by `serde_json::to_string`: the
/// compact form of a JSON text or the error's text; the result is taken to depend on the text
/// alone (`json_compacted`).
#[verifier::external_body]
fn json_compact(s: &str) -> (r: Result<String, (bool, String)>)
    ensures
        match r {
            Ok(c) => json_compacted(s@) == Ok::<Seq<char>, (bool, Seq<char>)>(c@),
            Err((p, m)) => json_compacted(s@) == Err::<Seq<char>, (bool, Seq<char>)>((p, m@)),
        },
{
    match serde_json::from_str::<serde_json::Value>(s) {
        Ok(v) => match serde_json::to_string(&v) {
            Ok(c) => Ok(c),
            Err(e) => Err((false, e.to_string())),
        },
        Err(e) => Err((true, e.to_string())),
    }
}

/// `serde_json::from_str::<serde_json::Value>` on both texts and `==` on the values: `None`
/// when either fails to parse (`json_values_equal`).
#[verifier::external_body]
fn json_equal(a: &str, b: &str) -> (r: Option<bool>)
    ensures
        r == json_values_equal(a@, b@),
{
    match (serde_json::from_str::<serde_json::Value>(a), serde_json::from_str::<serde_json::Value>(b)) {
        (Ok(x), Ok(y)) => Some(x == y),
        _ => None,
    }
}

/// The rule predicate IRI.
pub open spec fn swrl_pred() -> Seq<char> {
    "http://ontocode.dev/ns#swrlRule"@
}

/// Detail of the error for an unsafe ontology IRI.
pub open spec fn swrl_unsafe(iri: Seq<char>) -> Seq<char> {
    "SWRL ontology IRI is unsafe for Turtle write-back: "@ + debug_rendering(iri)
}

/// `<iri> <pred> "escaped"` prefix of a rule statement.
pub open spec fn swrl_needle(iri: Seq<char>, esc: Seq<char>) -> Seq<char> {
    "<"@ + iri + "> <"@ + swrl_pred() + "> \""@ + esc + "\""@
}

/// Add a SWRL rule as a compact JSON literal (`add_swrl_rule_json`), unless already present.
pub open spec fn add_swrl_spec(t: Seq<char>, iri: Seq<char>, rule: Seq<char>) -> Outcome {
    if !safe_iri(iri) {
        Err((ErrKind::PatchInvalid, swrl_unsafe(iri)))
    } else {
        match json_compacted(rule) {
            Err((parse, m)) => Err(
                (
                    ErrKind::PatchInvalid,
                    if parse {
                        "invalid SWRL rule JSON: "@ + m
                    } else {
                        "serialize SWRL rule JSON: "@ + m
                    },
                ),
            ),
            Ok(c) => {
                let needle = swrl_needle(iri, escape_turtle(c));
                if contains(t, needle) {
                    Ok(t)
                } else {
                    Ok(nl_end(t) + needle + "^^<http://www.w3.org/2001/XMLSchema#string> .\n"@)
                }
            },
        }
    }
}

fn needle_exec(iri: &[char], esc: &[char]) -> (r: Vec<char>)
    ensures
        r@ == swrl_needle(iri@, esc@),
{
    let mut n = chars_of("<");
    push_all(&mut n, iri);
    push_str(&mut n, "> <http://ontocode.dev/ns#swrlRule> \"");
    push_all(&mut n, esc);
    push_str(&mut n, "\"");
    proof {
        reveal_strlit("<");
        reveal_strlit("> <");
        reveal_strlit("> <http://ontocode.dev/ns#swrlRule> \"");
        reveal_strlit("http://ontocode.dev/ns#swrlRule");
        reveal_strlit("> \"");
    }
    assert(n@ =~= swrl_needle(iri@, esc@));
    n
}

pub fn add_swrl_exec(t: &[char], iri: &[char], rule: &[char]) -> (r: Result<Vec<char>, OwlError>)
    ensures
        outcome(r) == add_swrl_spec(t@, iri@, rule@),
{
    if !safe_iri_chars(iri) {
        let d = debug_text(iri);
        return Err(err2(ErrKind::PatchInvalid, "SWRL ontology IRI is unsafe for Turtle write-back: ", d.as_slice()));
    }
    let rs = string_from(rule);
    match json_compact(rs.as_str()) {
        Err((parse, m)) => {
            let mc = chars_of(m.as_str());
            if parse {
                Err(err2(ErrKind::PatchInvalid, "invalid SWRL rule JSON: ", mc.as_slice()))
            } else {
                Err(err2(ErrKind::PatchInvalid, "serialize SWRL rule JSON: ", mc.as_slice()))
            }
        },
        Ok(c) => {
            let cc = chars_of(c.as_str());
            let esc = escape_turtle_string(cc.as_slice());
            let needle = needle_exec(iri, esc.as_slice());
            if contains_exec(t, needle.as_slice()) {
                return Ok(copy_chars(t));
            }
            let mut out = copy_chars(t);
            push_nl_end(&mut out);
            push_all(&mut out, needle.as_slice());
            push_str(&mut out, "^^<http://www.w3.org/2001/XMLSchema#string> .\n");
            Ok(out)
        },
    }
}

/// Characters of a string body read byte by byte from `i` (each plain byte taken as the
/// character with that code, `\"`, `\\`, `\n`, `\t` unescaped), up to the closing `"`.
pub open spec fn swrl_body(b: Seq<u8>, i: int) -> Option<Seq<char>>
    decreases b.len() - i,
{
    if i < 0 || i >= b.len() {
        None
    } else if b[i] == 92u8 && i + 1 < b.len() {
        let c = b[i + 1];
        let esc = if c == 34u8 {
            seq!['"']
        } else if c == 92u8 {
            seq!['\\']
        } else if c == 110u8 {
            seq!['\n']
        } else if c == 116u8 {
            seq!['\t']
        } else {
            seq!['\\', c as char]
        };
        match swrl_body(b, i + 2) {
            Some(r) => Some(esc + r),
            None => None,
        }
    } else if b[i] == 34u8 {
        Some(Seq::empty())
    } else {
        match swrl_body(b, i + 1) {
            Some(r) => Some(seq![b[i] as char] + r),
            None => None,
        }
    }
}

/// The rule literal of a line stating a rule of `iri` (`swrl_rule_literal_on_line`).
pub open spec fn swrl_literal(line: Seq<char>, iri: Seq<char>) -> Option<Seq<char>> {
    let subj = "<"@ + iri + ">"@;
    let pred = "<"@ + swrl_pred() + ">"@;
    let tr = trim(line);
    if !(contains(tr, subj) && contains(tr, pred)) {
        None
    } else {
        let after = tr.skip(find_from_spec(tr, 0, pred) + pred.len());
        let nxt = find_from_spec(after, 0, pred);
        let seg = ltrim(
            if nxt >= 0 {
                after.take(nxt)
            } else {
                after
            },
        );
        if seg.len() == 0 || seg[0] != '"' {
            None
        } else {
            swrl_body(vstd::utf8::encode_utf8(seg), 1)
        }
    }
}

/// Bytes of a character text in UTF-8.
fn utf8_bytes(s: &[char]) -> (r: Vec<u8>)
    ensures
        r@ == vstd::utf8::encode_utf8(s@),
{
    let st = string_from(s);
    st.as_str().as_bytes_vec()
}

fn swrl_body_exec(b: &[u8]) -> (r: Option<Vec<char>>)
    ensures
        match r {
            Some(v) => swrl_body(b@, 1) == Some(v@),
            None => swrl_body(b@, 1) is None,
        },
{
    let mut out: Vec<char> = Vec::new();
    let mut i: usize = 1;
    while i < b.len()
        invariant
            1 <= i,
            swrl_body(b@, 1) == match swrl_body(b@, i as int) {
                Some(r) => Some(out@ + r),
                None => None,
            },
        decreases b.len() - i,
    {
        let ghost before = out@;
        if b[i] == 92u8 && i + 1 < b.len() {
            let c = b[i + 1];
            if c == 34u8 {
                out.push('"');
            } else if c == 92u8 {
                out.push('\\');
            } else if c == 110u8 {
                out.push('\n');
            } else if c == 116u8 {
                out.push('\t');
            } else {
                out.push('\\');
                out.push(c as char);
            }
            let ghost esc = if c == 34u8 {
                seq!['"']
            } else if c == 92u8 {
                seq!['\\']
            } else if c == 110u8 {
                seq!['\n']
            } else if c == 116u8 {
                seq!['\t']
            } else {
                seq!['\\', c as char]
            };
            assert(out@ =~= before + esc);
            assert forall|r: Seq<char>| #[trigger] (before + (esc + r)) =~= out@ + r by {}
            i += 2;
        } else if b[i] == 34u8 {
            assert(out@ + Seq::<char>::empty() =~= out@);
            return Some(out);
        } else {
            out.push(b[i] as char);
            assert forall|r: Seq<char>| #[trigger] (before + (seq![b@[i as int] as char] + r)) =~= out@ + r by {}
            i += 1;
        }
    }
    None
}

fn swrl_literal_exec(line: &[char], iri: &[char]) -> (r: Option<Vec<char>>)
    ensures
        match r {
            Some(v) => swrl_literal(line@, iri@) == Some(v@),
            None => swrl_literal(line@, iri@) is None,
        },
{
    let subj = crate::iri::bracketed(iri);
    let pred = chars_of("<http://ontocode.dev/ns#swrlRule>");
    proof {
        reveal_strlit("<http://ontocode.dev/ns#swrlRule>");
        reveal_strlit("http://ontocode.dev/ns#swrlRule");
        reveal_strlit("<");
        reveal_strlit(">");
    }
    assert(pred@ =~= "<"@ + swrl_pred() + ">"@);
    let tr = trim_exec(line);
    if !(contains_exec(tr.as_slice(), subj.as_slice()) && contains_exec(tr.as_slice(), pred.as_slice())) {
        return None;
    }
    proof {
        lemma_find_from_none(tr@, 0, pred@);
    }
    let p = match find_from(tr.as_slice(), 0, pred.as_slice()) {
        Some(p) => p,
        None => {
            return None;
        },
    };
    let trl = tr.len();
    assert(p + pred@.len() <= tr@.len());
    let after = slice_chars(tr.as_slice(), p + pred.len(), trl);
    proof {
        lemma_find_from_none(after@, 0, pred@);
    }
    let seg0 = match find_from(after.as_slice(), 0, pred.as_slice()) {
        Some(q) => slice_chars(after.as_slice(), 0, q),
        None => copy_chars(after.as_slice()),
    };
    let k = skip_ws_exec(seg0.as_slice(), 0);
    proof {
        lemma_skip_ws_bounds(seg0@, 0);
    }
    let seg = slice_chars(seg0.as_slice(), k, seg0.len());
    if seg.len() == 0 || seg[0] != '"' {
        return None;
    }
    let bytes = utf8_bytes(seg.as_slice());
    swrl_body_exec(bytes.as_slice())
}

/// The rule literal matches the requested rule: equal JSON values when both parse, else equal
/// to the rule text or to its compact form.
pub open spec fn swrl_matches(lit: Seq<char>, rule: Seq<char>) -> bool {
    match json_values_equal(rule, lit) {
        Some(b) => b,
        None => lit == rule || lit == match json_compacted(rule) {
            Ok(c) => c,
            Err(_) => rule,
        },
    }
}

/// Lines from `i` on, each followed by `\n`, without the first rule line of `iri` matching
/// `rule` when none was removed yet: the text and whether a line was removed.
pub open spec fn swrl_filter_from(t: Seq<char>, i: int, iri: Seq<char>, rule: Seq<char>, removed: bool) -> (
    Seq<char>,
    bool,
)
    decreases t.len() + 1 - i,
{
    if i < 0 || i >= t.len() {
        (Seq::empty(), removed)
    } else {
        proof {
            lemma_line_bounds(t, i);
        }
        let line = line_at(t, i);
        let hit = !removed && match swrl_literal(line, iri) {
            Some(lit) => swrl_matches(lit, rule),
            None => false,
        };
        let rest = swrl_filter_from(t, next_line_start(t, i), iri, rule, removed || hit);
        if hit {
            rest
        } else {
            (line + "\n"@ + rest.0, rest.1)
        }
    }
}

/// Remove the first rule line matching `rule` (`remove_swrl_rule_json`); the text is rebuilt
/// line by line.
pub open spec fn remove_swrl_spec(t: Seq<char>, iri: Seq<char>, rule: Seq<char>) -> Outcome {
    if !safe_iri(iri) {
        Err((ErrKind::PatchInvalid, swrl_unsafe(iri)))
    } else {
        let (out, removed) = swrl_filter_from(t, 0, iri, rule, false);
        if removed {
            Ok(out)
        } else {
            Err((ErrKind::PatchInvalid, "SWRL rule not found for ontology "@ + iri))
        }
    }
}

fn swrl_matches_exec(lit: &[char], rule: &[char]) -> (r: bool)
    ensures
        r == swrl_matches(lit@, rule@),
{
    let rs = string_from(rule);
    let ls = string_from(lit);
    match json_equal(rs.as_str(), ls.as_str()) {
        Some(b) => b,
        None => {
            if crate::text::seq_eq(lit, rule) {
                return true;
            }
            match json_compact(rs.as_str()) {
                Ok(c) => {
                    let cc = chars_of(c.as_str());
                    crate::text::seq_eq(lit, cc.as_slice())
                },
                Err(_) => crate::text::seq_eq(lit, rule),
            }
        },
    }
}

pub fn remove_swrl_exec(t: &[char], iri: &[char], rule: &[char]) -> (r: Result<Vec<char>, OwlError>)
    ensures
        outcome(r) == remove_swrl_spec(t@, iri@, rule@),
{
    if !safe_iri_chars(iri) {
        let d = debug_text(iri);
        return Err(err2(ErrKind::PatchInvalid, "SWRL ontology IRI is unsafe for Turtle write-back: ", d.as_slice()));
    }
    let mut out: Vec<char> = Vec::new();
    let mut removed = false;
    let mut i: usize = 0;
    while i < t.len()
        invariant
            i <= t.len(),
            swrl_filter_from(t@, 0, iri@, rule@, false) == ({
                let rest = swrl_filter_from(t@, i as int, iri@, rule@, removed);
                (out@ + rest.0, rest.1)
            }),
        decreases t.len() - i,
    {
        let (ce, nl) = line_bounds(t, i);
        proof {
            lemma_line_bounds(t@, i as int);
        }
        let line = slice_chars(t, i, ce);
        assert(line@ == line_at(t@, i as int));
        let hit = !removed && match swrl_literal_exec(line.as_slice(), iri) {
            Some(lit) => swrl_matches_exec(lit.as_slice(), rule),
            None => false,
        };
        let next = if nl >= t.len() { t.len() } else { nl + 1 };
        if nl >= t.len() {
            assert(swrl_filter_from(t@, nl + 1, iri@, rule@, removed || hit) == swrl_filter_from(
                t@,
                t.len() as int,
                iri@,
                rule@,
                removed || hit,
            ));
        }
        let ghost before = out@;
        if !hit {
            push_all(&mut out, line.as_slice());
            out.push('\n');
            proof {
                reveal_strlit("\n");
            }
            let ghost rest = swrl_filter_from(t@, next as int, iri@, rule@, removed || hit);
            assert(out@ + rest.0 =~= before + (line@ + "\n"@ + rest.0));
        }
        removed = removed || hit;
        i = next;
    }
    assert(out@ + Seq::<char>::empty() =~= out@);
    if removed {
        Ok(out)
    } else {
        let mut d = chars_of("SWRL rule not found for ontology ");
        push_all(&mut d, iri);
        Err(make_err(ErrKind::PatchInvalid, d.as_slice()))
    }
}

} // verus!

verus! {

/// The rule predicate as a Turtle term: `<http://ontocode.dev/ns#swrlRule>`.
pub open spec fn swrl_pred_term() -> Seq<char> {
    "<"@ + swrl_pred() + ">"@
}

/// What follows a rule literal on its line.
pub open spec fn swrl_suffix() -> Seq<char> {
    "^^<http://www.w3.org/2001/XMLSchema#string> ."@
}

/// ASCII text without a carriage return.
pub open spec fn plain_ascii(s: Seq<char>) -> bool {
    forall|i: int| 0 <= i < s.len() ==> ((#[trigger] s[i]) as u32) < 128 && s[i] != '\r'
}

proof fn lemma_pred_chars()
    ensures
        swrl_pred().len() == 31,
        swrl_pred_term().len() == 33,
        swrl_pred_term()[0] == '<',
        swrl_pred_term()[32] == '>',
        forall|k: int| 1 <= k < 32 ==> #[trigger] swrl_pred_term()[k] == swrl_pred()[k - 1],
        forall|k: int|
            0 <= k < 31 ==> #[trigger] swrl_pred()[k] != '>' && swrl_pred()[k] != '"' && swrl_pred()[k] != '<'
                && swrl_pred()[k] != ' ' && swrl_pred()[k] != '\n',
{
    reveal_strlit("http://ontocode.dev/ns#swrlRule");
    reveal_strlit("<");
    reveal_strlit(">");
}

proof fn lemma_ascii_bytes(s: Seq<char>)
    requires
        forall|i: int| 0 <= i < s.len() ==> ((#[trigger] s[i]) as u32) < 128,
    ensures
        vstd::utf8::encode_utf8(s).len() == s.len(),
        forall|i: int| 0 <= i < s.len() ==> #[trigger] vstd::utf8::encode_utf8(s)[i] == (s[i] as u32) as u8,
    decreases s.len(),
{
    if s.len() > 0 {
        let d = s.drop_first();
        assert forall|i: int| 0 <= i < d.len() implies ((#[trigger] d[i]) as u32) < 128 by {
            assert(d[i] == s[i + 1]);
        }
        lemma_ascii_bytes(d);
        let v = s[0] as u32;
        assert((v & 0x7Fu32) as u8 == v as u8) by (bit_vector)
            requires
                v < 128u32,
        ;
        assert(vstd::utf8::encode_scalar(v) =~= seq![v as u8]);
        let e = vstd::utf8::encode_utf8(s);
        assert(e == seq![v as u8] + vstd::utf8::encode_utf8(d));
        assert forall|i: int| 0 <= i < s.len() implies #[trigger] e[i] == (s[i] as u32) as u8 by {
            if i > 0 {
                assert(d[i - 1] == s[i]);
            }
        }
    }
}

proof fn lemma_escape_front(x: char, s: Seq<char>)
    ensures
        escape_turtle(seq![x] + s) == turtle_escape_char(x) + escape_turtle(s),
    decreases s.len(),
{
    if s.len() == 0 {
        assert(seq![x] + s =~= seq![x]);
        assert(seq![x].drop_last() =~= Seq::<char>::empty());
        assert(escape_turtle(Seq::<char>::empty()) =~= Seq::<char>::empty());
        assert(escape_turtle(seq![x]) == escape_turtle(seq![x].drop_last()) + turtle_escape_char(seq![x].last()));
        assert(Seq::<char>::empty() + turtle_escape_char(x) =~= turtle_escape_char(x));
        assert(turtle_escape_char(x) + Seq::<char>::empty() =~= turtle_escape_char(x));
    } else {
        lemma_escape_front(x, s.drop_last());
        let u = seq![x] + s;
        assert(u.drop_last() =~= seq![x] + s.drop_last());
        assert(u.last() == s.last());
        assert(escape_turtle(u) == escape_turtle(u.drop_last()) + turtle_escape_char(u.last()));
        assert(escape_turtle(s) == escape_turtle(s.drop_last()) + turtle_escape_char(s.last()));
        assert(turtle_escape_char(x) + escape_turtle(s.drop_last()) + turtle_escape_char(s.last())
            =~= turtle_escape_char(x) + escape_turtle(s));
    }
}

proof fn lemma_escape_plain(c: Seq<char>)
    requires
        plain_ascii(c),
    ensures
        forall|i: int|
            0 <= i < escape_turtle(c).len() ==> ((#[trigger] escape_turtle(c)[i]) as u32) < 128 && escape_turtle(
                c,
            )[i] != '\n',
    decreases c.len(),
{
    if c.len() > 0 {
        let d = c.drop_last();
        assert forall|i: int| 0 <= i < d.len() implies ((#[trigger] d[i]) as u32) < 128 && d[i] != '\r' by {
            assert(d[i] == c[i]);
        }
        lemma_escape_plain(d);
        let e = escape_turtle(c);
        let p = escape_turtle(d);
        let q = turtle_escape_char(c.last());
        assert(c.last() == c[c.len() - 1]);
        assert forall|i: int| 0 <= i < e.len() implies ((#[trigger] e[i]) as u32) < 128 && e[i] != '\n' by {
            if i < p.len() {
                assert(e[i] == p[i]);
            } else {
                assert(e[i] == q[i - p.len()]);
            }
        }
    }
}

#[verifier::spinoff_prover]
#[verifier::rlimit(50)]
proof fn lemma_body_unescape(c: Seq<char>, b: Seq<u8>, i: int)
    requires
        plain_ascii(c),
        0 <= i,
        i + escape_turtle(c).len() < b.len(),
        forall|k: int|
            0 <= k < escape_turtle(c).len() ==> b[i + k] == ((#[trigger] escape_turtle(c)[k]) as u32) as u8,
        b[i + escape_turtle(c).len()] == 34u8,
    ensures
        swrl_body(b, i) == Some(c),
    decreases c.len(),
{
    let e = escape_turtle(c);
    if c.len() == 0 {
        assert(e.len() == 0);
        assert(b[i] == 34u8);
        assert(c =~= Seq::<char>::empty());
    } else {
        let x = c[0];
        let r = c.drop_first();
        assert(c =~= seq![x] + r);
        lemma_escape_front(x, r);
        let t = turtle_escape_char(x);
        let er = escape_turtle(r);
        assert(e == t + er);
        assert(plain_ascii(r)) by {
            assert forall|k: int| 0 <= k < r.len() implies ((#[trigger] r[k]) as u32) < 128 && r[k] != '\r' by {
                assert(r[k] == c[k + 1]);
            }
        }
        let w = t.len() as int;
        assert forall|k: int| 0 <= k < er.len() implies b[i + w + k] == ((#[trigger] er[k]) as u32) as u8 by {
            assert(e[w + k] == er[k]);
        }
        assert(b[i + w + er.len()] == 34u8);
        lemma_body_unescape(r, b, i + w);
        assert(b[i] == ((e[0]) as u32) as u8);
        assert(e[0] == t[0]);
        assert((x as u32) < 128 && x != '\r');
        if x == '\\' || x == '"' || x == '\n' || x == '\t' {
            assert(b[i + 1] == ((e[1]) as u32) as u8);
            assert(e[1] == t[1]);
            assert(b[i] == 92u8);
        } else {
            assert(t == seq![x]);
            assert(b[i] == (x as u32) as u8);
            let v = x as u32;
            assert('\\' as u32 == 92u32);
            assert('"' as u32 == 34u32);
            assert(x != '\\');
            vstd::utf8::char_u32_cast(x, v);
            vstd::utf8::char_u32_cast('\\', 92u32);
            assert(v != 92u32);
            assert(v != 34u32);
            assert((v as u8) as u32 == v) by (bit_vector)
                requires
                    v < 128u32,
            ;
            assert(b[i] != 92u8 && b[i] != 34u8);
            assert(b[i] as u32 == v);
            assert((v as char) == x);
            assert((b[i] as char) == x);
        }
    }
}

proof fn lemma_contains_within(s: Seq<char>, a: int, b: int, x: Seq<char>)
    requires
        0 <= a <= b <= s.len(),
        contains(s.subrange(a, b), x),
    ensures
        contains(s, x),
{
    let u = s.subrange(a, b);
    let k = choose|k: int| crate::text::occurs_at(u, k, x);
    assert(s.subrange(a + k, a + k + x.len()) =~= u.subrange(k, k + x.len()));
    assert(crate::text::occurs_at(s, a + k, x));
}

proof fn lemma_trim_within(line: Seq<char>)
    ensures
        exists|a: int, b: int| 0 <= a <= b <= line.len() && trim(line) == line.subrange(a, b),
{
    crate::text::lemma_skip_ws_bounds(line, 0);
    let a = crate::text::skip_ws(line, 0);
    let ts = crate::text::trim_start(line);
    crate::text::lemma_trim_end_bounds(ts, ts.len() as int);
    let e = crate::text::trim_end_at(ts, ts.len() as int);
    assert(trim(line) =~= line.subrange(a, a + e));
}

/// Layout of the line that `add_swrl_spec` writes: it is its own trimmed form, states the
/// subject, and its first rule predicate is the one after the subject.
#[verifier::spinoff_prover]
#[verifier::rlimit(50)]
proof fn lemma_rule_line_layout(o: Seq<char>, esc: Seq<char>)
    requires
        safe_iri(o),
        o != swrl_pred(),
    ensures
        trim(swrl_needle(o, esc) + swrl_suffix()) == swrl_needle(o, esc) + swrl_suffix(),
        contains(swrl_needle(o, esc) + swrl_suffix(), "<"@ + o + ">"@),
        contains(swrl_needle(o, esc) + swrl_suffix(), swrl_pred_term()),
        find_from_spec(swrl_needle(o, esc) + swrl_suffix(), 0, swrl_pred_term()) == o.len() + 3,
        (swrl_needle(o, esc) + swrl_suffix()).skip(o.len() + 36int) == " \""@ + esc + "\""@ + swrl_suffix(),
{
    reveal_strlit("<");
    reveal_strlit(">");
    reveal_strlit("> <");
    reveal_strlit("> \"");
    reveal_strlit("\"");
    reveal_strlit(" \"");
    reveal_strlit("> ");
    reveal_strlit("^^<http://www.w3.org/2001/XMLSchema#string> .");
    lemma_pred_chars();
    let n = o.len() as int;
    let pb = swrl_pred_term();
    let sfx = swrl_suffix();
    let head = "<"@ + o + "> "@;
    let mid = " \""@ + esc + "\""@;
    let line = swrl_needle(o, esc) + sfx;
    assert(line =~= head + pb + mid + sfx);
    assert(head.len() == n + 3);
    assert(sfx.len() == 45);
    assert(line[0] == '<');
    assert(line[line.len() - 1] == '.');
    assert(crate::text::skip_ws(line, 0) == 0);
    assert(crate::text::trim_start(line) =~= line);
    assert(crate::text::trim_end_at(line, line.len() as int) == line.len());
    assert(trim(line) =~= line);
    let subj = "<"@ + o + ">"@;
    assert(line.subrange(0, n + 2) =~= subj);
    assert(crate::text::occurs_at(line, 0, subj));
    assert(line.subrange(n + 3, n + 36) =~= pb);
    assert(crate::text::occurs_at(line, n + 3, pb));
    crate::text::lemma_find_from_none(line, 0, pb);
    let f = find_from_spec(line, 0, pb);
    assert(f != -1);
    assert(f <= n + 3);
    if f < n + 3 {
        assert(line[f] == pb[0]);
        assert(f == 0) by {
            if 1 <= f <= n {
                assert(line[f] == o[f - 1]);
            }
        }
        if n <= 30 {
            assert(line[n + 1] == pb[n + 1]);
            assert(pb[n + 1] == swrl_pred()[n]);
        } else if n == 31 {
            assert forall|k: int| 0 <= k < 31 implies o[k] == swrl_pred()[k] by {
                assert(line[k + 1] == pb[k + 1]);
            }
            assert(o =~= swrl_pred());
        } else {
            assert(line[32] == pb[32]);
            assert(line[32] == o[31]);
        }
    }
    assert(line.skip(n + 36) =~= mid + sfx);
}

/// After the rule predicate, the literal of the written line reads back as the rule.
#[verifier::spinoff_prover]
#[verifier::rlimit(50)]
proof fn lemma_rule_tail(c: Seq<char>)
    requires
        plain_ascii(c),
        !contains(escape_turtle(c), swrl_pred_term()),
    ensures
        ({
            let after = " \""@ + escape_turtle(c) + "\""@ + swrl_suffix();
            let nxt = find_from_spec(after, 0, swrl_pred_term());
            let seg = crate::prefixes::ltrim(
                if nxt >= 0 {
                    after.take(nxt)
                } else {
                    after
                },
            );
            seg.len() > 0 && seg[0] == '"' && swrl_body(vstd::utf8::encode_utf8(seg), 1) == Some(c)
        }),
{
    reveal_strlit("\"");
    reveal_strlit(" \"");
    lemma_pred_chars();
    lemma_escape_plain(c);
    let esc = escape_turtle(c);
    let m = esc.len() as int;
    let pb = swrl_pred_term();
    let after = " \""@ + esc + "\""@ + swrl_suffix();
    assert(after[0] == ' ' && after[1] == '"' && after[m + 2] == '"');
    assert forall|k: int| 0 <= k < m implies after[k + 2] == #[trigger] esc[k] by {}
    crate::text::lemma_find_from_none(after, 0, pb);
    let nxt = find_from_spec(after, 0, pb);
    if nxt != -1 {
        if nxt <= m + 2 {
            assert(crate::text::occurs_at(after, nxt, pb));
            assert(after.subrange(nxt, nxt + 33) == pb);
            if nxt <= 1 {
                assert(after[nxt] == pb[0]);
            } else if nxt + 33 <= m + 2 {
                assert(esc.subrange(nxt - 2, nxt + 31) =~= pb) by {
                    assert forall|k: int| 0 <= k < 33 implies esc.subrange(nxt - 2, nxt + 31)[k] == pb[k] by {
                        assert(after[nxt + k] == pb[k]);
                        assert(after[nxt + k] == esc[nxt - 2 + k]);
                    }
                }
                assert(crate::text::occurs_at(esc, nxt - 2, pb));
            } else {
                let q = m + 2 - nxt;
                assert(after[nxt + q] == pb[q]);
                assert(pb[q] != '"') by {
                    if 1 <= q < 32 {
                        assert(pb[q] == swrl_pred()[q - 1]);
                    }
                }
            }
        }
    }
    let seg0 = if nxt >= 0 {
        after.take(nxt)
    } else {
        after
    };
    assert(seg0.len() >= m + 3);
    assert forall|k: int| 0 <= k < m + 3 implies seg0[k] == #[trigger] after[k] by {}
    assert(crate::text::is_ws(seg0[0]));
    assert(!crate::text::is_ws(seg0[1]));
    assert(crate::text::skip_ws(seg0, 1) == 1);
    assert(crate::text::skip_ws(seg0, 0) == 1);
    let seg = crate::prefixes::ltrim(seg0);
    assert(seg =~= seg0.skip(1));
    assert(seg.len() > 0 && seg[0] == '"');
    let h = seg.take(m + 2);
    let y = seg.skip(m + 2);
    assert(seg =~= h + y);
    crate::text::lemma_encode_concat(h, y);
    assert(h[0] == '"' && h[m + 1] == '"');
    assert forall|k: int| 0 <= k < m implies h[k + 1] == #[trigger] esc[k] by {
        assert(h[k + 1] == after[k + 2]);
    }
    assert forall|k: int| 0 <= k < h.len() implies ((#[trigger] h[k]) as u32) < 128 by {
        if 1 <= k <= m {
            assert(h[k] == esc[k - 1]);
        }
    }
    lemma_ascii_bytes(h);
    let bytes = vstd::utf8::encode_utf8(seg);
    assert forall|k: int| 0 <= k < h.len() implies #[trigger] bytes[k] == (h[k] as u32) as u8 by {
        assert(bytes[k] == vstd::utf8::encode_utf8(h)[k]);
    }
    assert forall|k: int| 0 <= k < m implies bytes[1 + k] == ((#[trigger] esc[k]) as u32) as u8 by {
        assert(bytes[1 + k] == (h[1 + k] as u32) as u8);
    }
    assert(bytes[1 + m] == ('"' as u32) as u8);
    lemma_body_unescape(c, bytes, 1);
}

/// The line that `add_swrl_spec` writes for the compact rule `c` has `c` as its literal.
proof fn lemma_rule_literal(o: Seq<char>, c: Seq<char>)
    requires
        safe_iri(o),
        o != swrl_pred(),
        plain_ascii(c),
        !contains(escape_turtle(c), swrl_pred_term()),
    ensures
        swrl_literal(swrl_needle(o, escape_turtle(c)) + swrl_suffix(), o) == Some(c),
{
    lemma_rule_line_layout(o, escape_turtle(c));
    lemma_rule_tail(c);
    reveal_strlit("<");
    reveal_strlit(">");
    assert("<"@ + swrl_pred() + ">"@ == swrl_pred_term());
    lemma_pred_chars();
    let line = swrl_needle(o, escape_turtle(c)) + swrl_suffix();
    assert(line.skip(find_from_spec(line, 0, swrl_pred_term()) + swrl_pred_term().len()) == line.skip(o.len() + 36int));
}

/// No line of `t` states both the subject `<iri>` and the rule predicate.
pub open spec fn no_rule_line(t: Seq<char>, iri: Seq<char>) -> bool {
    forall|i: int|
        0 <= i < t.len() && (i == 0 || t[i - 1] == '\n') ==> !(contains(#[trigger] line_at(t, i), "<"@ + iri + ">"@)
            && contains(line_at(t, i), swrl_pred_term()))
}

/// In a text without carriage returns, the line at a line start `i` runs to the first newline
/// at or after `i`, whatever follows that newline.
proof fn lemma_line_at_prefix(t: Seq<char>, m: Seq<char>, i: int, e: int)
    requires
        0 <= i <= e < t.len(),
        t[e] == '\n',
        forall|k: int| i <= k < e ==> t[k] != '\n',
        forall|k: int| 0 <= k < t.len() ==> t[k] != '\r',
    ensures
        line_at(t, i) == t.subrange(i, e),
        line_at(t + m, i) == t.subrange(i, e),
        next_line_start(t + m, i) == e + 1,
{
    let u = t + m;
    crate::text::lemma_next_char_bounds(t, i, '\n');
    crate::text::lemma_next_char_bounds(u, i, '\n');
    let a = crate::text::next_char(t, i, '\n');
    let b = crate::text::next_char(u, i, '\n');
    assert(a == e) by {
        if a < e {
            assert(t[a] == '\n');
        }
    }
    assert(b == e) by {
        if b < e {
            assert(u[b] == t[b]);
        } else if b > e {
            assert(u[e] == '\n');
        }
    }
    if e > i {
        assert(t[e - 1] != '\r');
        assert(u[e - 1] == t[e - 1]);
    }
    assert(u.subrange(i, e) =~= t.subrange(i, e));
}

/// Scanning the lines of `t` (followed by more text `m`) from a line start `i` removes
/// nothing when `t` holds no rule predicate: every line comes back with its newline.
#[verifier::spinoff_prover]
#[verifier::rlimit(50)]
proof fn lemma_filter_keeps(t: Seq<char>, m: Seq<char>, i: int, iri: Seq<char>, rule: Seq<char>)
    requires
        0 <= i <= t.len(),
        t.len() > 0,
        t.last() == '\n',
        i == 0 || t[i - 1] == '\n',
        forall|k: int| 0 <= k < t.len() ==> t[k] != '\r',
        no_rule_line(t, iri),
    ensures
        swrl_filter_from(t + m, i, iri, rule, false) == (
            t.skip(i) + swrl_filter_from(t + m, t.len() as int, iri, rule, false).0,
            swrl_filter_from(t + m, t.len() as int, iri, rule, false).1,
        ),
    decreases t.len() - i,
{
    let u = t + m;
    let r = swrl_filter_from(u, t.len() as int, iri, rule, false);
    if i == t.len() {
        assert(t.skip(i) + r.0 =~= r.0);
    } else {
        crate::text::lemma_next_char_bounds(t, i, '\n');
        let e = crate::text::next_char(t, i, '\n');
        assert(e <= t.len() - 1) by {
            if e > t.len() - 1 {
                assert(t[t.len() - 1] == '\n');
            }
        }
        lemma_line_at_prefix(t, m, i, e);
        let line = line_at(u, i);
        assert(line == line_at(t, i));
        assert(swrl_literal(line, iri) is None) by {
            lemma_trim_within(line);
            let (a, b) = choose|a: int, b: int| 0 <= a <= b <= line.len() && trim(line) == line.subrange(a, b);
            reveal_strlit("<");
            reveal_strlit(">");
            assert("<"@ + swrl_pred() + ">"@ == swrl_pred_term());
            if contains(trim(line), "<"@ + iri + ">"@) && contains(trim(line), swrl_pred_term()) {
                lemma_contains_within(line, a, b, "<"@ + iri + ">"@);
                lemma_contains_within(line, a, b, swrl_pred_term());
            }
        }
        lemma_filter_keeps(t, m, e + 1, iri, rule);
        reveal_strlit("\n");
        assert(t.skip(i) =~= line + "\n"@ + t.skip(e + 1));
        assert(t.skip(i) + r.0 =~= line + "\n"@ + (t.skip(e + 1) + r.0));
    }
}

/// The rule line is a single line: no newline in it, and it ends with `.`.
proof fn lemma_rule_line_single(o: Seq<char>, c: Seq<char>)
    requires
        safe_iri(o),
        plain_ascii(c),
    ensures
        forall|k: int|
            0 <= k < (swrl_needle(o, escape_turtle(c)) + swrl_suffix()).len() ==> #[trigger] (swrl_needle(
                o,
                escape_turtle(c),
            ) + swrl_suffix())[k] != '\n',
        (swrl_needle(o, escape_turtle(c)) + swrl_suffix()).last() == '.',
{
    lemma_pred_chars();
    lemma_escape_plain(c);
    reveal_strlit("<");
    reveal_strlit("> <");
    reveal_strlit("> \"");
    reveal_strlit("\"");
    reveal_strlit("^^<http://www.w3.org/2001/XMLSchema#string> .");
    let esc = escape_turtle(c);
    let line = swrl_needle(o, esc) + swrl_suffix();
    let head = "<"@ + o;
    let mid = "> <"@ + swrl_pred() + "> \""@;
    assert(line =~= head + mid + esc + "\""@ + swrl_suffix());
    assert forall|k: int| 0 <= k < line.len() implies #[trigger] line[k] != '\n' by {
        if k < head.len() {
            if k > 0 {
                assert(line[k] == o[k - 1]);
            }
        } else if k < head.len() + mid.len() {
            let q = k - head.len();
            if 3 <= q < 34 {
                assert(mid[q] == swrl_pred()[q - 3]);
            }
        } else if k < head.len() + mid.len() + esc.len() {
            assert(line[k] == esc[k - head.len() - mid.len()]);
        }
    }
}

/// `add_swrl_spec` appends the rule line to a document that does not mention the rule
/// predicate and ends with a newline.
#[verifier::spinoff_prover]
#[verifier::rlimit(50)]
proof fn lemma_add_appends(t: Seq<char>, o: Seq<char>, j: Seq<char>)
    requires
        t.len() > 0,
        t.last() == '\n',
        forall|k: int| 0 <= k < t.len() ==> t[k] != '\r',
        no_rule_line(t, o),
        safe_iri(o),
        o != swrl_pred(),
        json_compacted(j) is Ok,
        plain_ascii(json_compacted(j)->Ok_0),
    ensures
        add_swrl_spec(t, o, j) == Ok::<Seq<char>, (ErrKind, Seq<char>)>(
            t + (swrl_needle(o, escape_turtle(json_compacted(j)->Ok_0)) + swrl_suffix() + "\n"@),
        ),
{
    let c = json_compacted(j)->Ok_0;
    let esc = escape_turtle(c);
    let needle = swrl_needle(o, esc);
    let line = needle + swrl_suffix();
    lemma_rule_line_layout(o, esc);
    reveal_strlit("^^<http://www.w3.org/2001/XMLSchema#string> .\n");
    reveal_strlit("^^<http://www.w3.org/2001/XMLSchema#string> .");
    reveal_strlit("\n");
    assert(!contains(t, needle)) by {
        if contains(t, needle) {
            let p = choose|p: int| crate::text::occurs_at(t, p, needle);
            let n = o.len() as int;
            lemma_pred_chars();
            lemma_rule_line_single(o, c);
            crate::text::lemma_find_from_none(line, 0, swrl_pred_term());
            assert(crate::text::occurs_at(line, n + 3, swrl_pred_term()));
            assert(needle.len() >= n + 36) by {
                reveal_strlit("<");
                reveal_strlit("> <");
                reveal_strlit("> \"");
                reveal_strlit("\"");
            }
            assert forall|k: int| 0 <= k < needle.len() implies #[trigger] needle[k] != '\n' by {
                assert(line[k] == needle[k]);
            }
            // the line of `t` holding the occurrence
            crate::text::lemma_last_index_bounds(t.take(p), '\n');
            let ls = crate::text::last_index(t.take(p), '\n') + 1;
            assert forall|k: int| ls <= k < p implies t[k] != '\n' by {
                assert(t.take(p)[k] == t[k]);
            }
            if ls > 0 {
                assert(t.take(p)[ls - 1] == t[ls - 1]);
            }
            assert forall|k: int| p <= k < p + needle.len() implies t[k] != '\n' by {
                assert(t.subrange(p, p + needle.len())[k - p] == needle[k - p]);
            }
            assert(p + needle.len() < t.len()) by {
                if p + needle.len() >= t.len() {
                    assert(t[t.len() - 1] == '\n');
                }
            }
            crate::text::lemma_next_char_bounds(t, ls, '\n');
            let e = crate::text::next_char(t, ls, '\n');
            assert(e >= p + needle.len()) by {
                if e < p + needle.len() {
                    assert(t[e] == '\n');
                }
            }
            assert(e < t.len()) by {
                if e >= t.len() {
                    assert(t[t.len() - 1] == '\n');
                }
            }
            lemma_line_at_prefix(t, Seq::<char>::empty(), ls, e);
            let l = line_at(t, ls);
            assert(l == t.subrange(ls, e));
            let subj = "<"@ + o + ">"@;
            reveal_strlit("<");
            reveal_strlit(">");
            assert(subj.len() == n + 2);
            assert(needle.subrange(0, n + 2) =~= subj) by {
                reveal_strlit("> <");
                reveal_strlit("> \"");
                reveal_strlit("\"");
            }
            assert(line.subrange(n + 3, n + 36) =~= swrl_pred_term());
            assert(l.subrange(p - ls, p - ls + n + 2) =~= subj) by {
                assert forall|k: int| 0 <= k < n + 2 implies l[p - ls + k] == subj[k] by {
                    assert(t.subrange(p, p + needle.len())[k] == needle[k]);
                    assert(needle.subrange(0, n + 2)[k] == needle[k]);
                }
            }
            assert(crate::text::occurs_at(l, p - ls, subj));
            assert(l.subrange(p - ls + n + 3, p - ls + n + 36) =~= swrl_pred_term()) by {
                assert forall|k: int| 0 <= k < 33 implies l[p - ls + n + 3 + k] == swrl_pred_term()[k] by {
                    assert(t.subrange(p, p + needle.len())[n + 3 + k] == needle[n + 3 + k]);
                    assert(line[n + 3 + k] == needle[n + 3 + k]);
                    assert(line.subrange(n + 3, n + 36)[k] == swrl_pred_term()[k]);
                }
            }
            assert(crate::text::occurs_at(l, p - ls + n + 3, swrl_pred_term()));
            assert(ls < t.len());
        }
    }
    assert(crate::edit::nl_end(t) == t);
    assert(crate::edit::nl_end(t) + needle + "^^<http://www.w3.org/2001/XMLSchema#string> .\n"@ =~= t + (line
        + "\n"@));
}

/// Scanning from the appended rule line removes it and ends there.
#[verifier::spinoff_prover]
#[verifier::rlimit(50)]
proof fn lemma_rule_line_removed(t: Seq<char>, o: Seq<char>, j: Seq<char>)
    requires
        safe_iri(o),
        o != swrl_pred(),
        json_compacted(j) is Ok,
        plain_ascii(json_compacted(j)->Ok_0),
        !contains(escape_turtle(json_compacted(j)->Ok_0), swrl_pred_term()),
        json_values_equal(j, json_compacted(j)->Ok_0) != Some(false),
    ensures
        swrl_filter_from(
            t + (swrl_needle(o, escape_turtle(json_compacted(j)->Ok_0)) + swrl_suffix() + "\n"@),
            t.len() as int,
            o,
            j,
            false,
        ) == (Seq::<char>::empty(), true),
{
    let c = json_compacted(j)->Ok_0;
    let line = swrl_needle(o, escape_turtle(c)) + swrl_suffix();
    lemma_rule_literal(o, c);
    lemma_rule_line_single(o, c);
    reveal_strlit("\n");
    let t2 = t + (line + "\n"@);
    let i = t.len() as int;
    lemma_line_bounds(t2, i);
    crate::text::lemma_next_char_bounds(t2, i, '\n');
    let e = crate::text::next_char(t2, i, '\n');
    assert(t2[t2.len() - 1] == '\n');
    assert(e == t2.len() - 1) by {
        if e < t2.len() - 1 {
            assert(t2[e] == line[e - i]);
        }
    }
    assert(t2[e - 1] == line[line.len() - 1]);
    assert(crate::text::line_content_end(t2, i) == e);
    assert(line_at(t2, i) =~= line);
    assert(swrl_literal(line_at(t2, i), o) == Some(c));
    assert(swrl_matches(c, j));
    assert(next_line_start(t2, i) == t2.len());
    assert(swrl_filter_from(t2, t2.len() as int, o, j, true) == (Seq::<char>::empty(), true));
    assert(swrl_filter_from(t2, i, o, j, false) == swrl_filter_from(t2, t2.len() as int, o, j, true));
}

/// Law: adding a SWRL rule (`AddSwrlRule`) and then removing the same rule (`RemoveSwrlRule`)
/// gives back the document byte for byte. This holds for a document that ends with a newline,
/// holds no carriage return and has no line stating both the ontology and the rule predicate
/// (`no_rule_line`); for an ontology IRI
/// that is safe and is not the rule predicate itself; and for a rule whose compact JSON form is
/// ASCII without a carriage return, does not itself hold the bracketed rule predicate once
/// escaped, and is not judged unequal to the rule when both are read as JSON values.
pub proof fn law_swrl_add_then_remove(t: Seq<char>, o: Seq<char>, j: Seq<char>)
    requires
        t.len() > 0,
        t.last() == '\n',
        forall|k: int| 0 <= k < t.len() ==> t[k] != '\r',
        no_rule_line(t, o),
        safe_iri(o),
        o != swrl_pred(),
        json_compacted(j) is Ok,
        plain_ascii(json_compacted(j)->Ok_0),
        !contains(escape_turtle(json_compacted(j)->Ok_0), swrl_pred_term()),
        json_values_equal(j, json_compacted(j)->Ok_0) != Some(false),
    ensures
        match add_swrl_spec(t, o, j) {
            Ok(t2) => remove_swrl_spec(t2, o, j) == Ok::<Seq<char>, (ErrKind, Seq<char>)>(t),
            Err(_) => false,
        },
{
    let c = json_compacted(j)->Ok_0;
    let m = swrl_needle(o, escape_turtle(c)) + swrl_suffix() + "\n"@;
    lemma_add_appends(t, o, j);
    lemma_filter_keeps(t, m, 0, o, j);
    lemma_rule_line_removed(t, o, j);
    assert(t.skip(0) + Seq::<char>::empty() =~= t);
}

} // verus!
