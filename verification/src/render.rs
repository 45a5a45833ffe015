//! Entity / Manchester rendering helpers: IRI splitting, CURIE rendering, prefix expansion,
//! and Manchester-syntax escaping.
use vstd::prelude::*;
use crate::iri::best_match;
use crate::iri::lemma_best_match_unique;
use crate::text::{starts_with, starts_with_exec};
use crate::namespaces::{
    best_namespace_match, distinct_keys, is_best_match, is_candidate, lemma_lookup_at, lookup, Namespaces,
};
use crate::text::{is_ws, skip_ws, trim_end_at, trim_end, trim_start};
use crate::text::{
    chars_of, contains, contains_exec, last_index, last_index_exec, lemma_last_index_bounds,
    lemma_next_char_bounds, next_char, next_char_exec, push_all, push_str, replace_all,
    replace_str, seq_eq, slice_chars, string_from, trim, trim_exec,
};

verus! {

/// `(namespace, local)` split at the last `#`, else at the last `/`, else `("", iri)`.
pub open spec fn split_iri_spec(iri: Seq<char>) -> (Seq<char>, Seq<char>) {
    let h = last_index(iri, '#');
    let s = last_index(iri, '/');
    if h >= 0 {
        (iri.take(h + 1), iri.skip(h + 1))
    } else if s >= 0 {
        (iri.take(s + 1), iri.skip(s + 1))
    } else {
        (Seq::empty(), iri)
    }
}

/// Split position (number of characters in the namespace part).
fn split_point(iri: &[char]) -> (r: usize)
    ensures
        r <= iri.len(),
        split_iri_spec(iri@) == (iri@.take(r as int), iri@.skip(r as int)),
{
    proof {
        lemma_last_index_bounds(iri@, '#');
        lemma_last_index_bounds(iri@, '/');
    }
    let n = iri.len();
    match last_index_exec(iri, '#') {
        Some(h) => {
            assert(h < n);
            h + 1
        },
        None => match last_index_exec(iri, '/') {
            Some(s) => {
                assert(s < n);
                s + 1
            },
            None => {
                assert(iri@.take(0) =~= Seq::<char>::empty());
                assert(iri@.skip(0) =~= iri@);
                0
            },
        },
    }
}

/// Split an IRI into `(namespace, local)` using `#` then `/`.
pub fn split_iri(iri: &str) -> (r: (String, String))
    ensures
        (r.0@, r.1@) == split_iri_spec(iri@),
{
    let v = chars_of(iri);
    let p = split_point(v.as_slice());
    let a = slice_chars(v.as_slice(), 0, p);
    let b = slice_chars(v.as_slice(), p, v.len());
    (string_from(a.as_slice()), string_from(b.as_slice()))
}

/// Local name of an IRI: the text after the last `#`, else after the last `/`, else the IRI.
pub open spec fn short_name(iri: Seq<char>) -> Seq<char> {
    split_iri_spec(iri).1
}

/// Characters of the short name.
pub fn short_name_chars(iri: &[char]) -> (r: Vec<char>)
    ensures
        r@ == short_name(iri@),
{
    let p = split_point(iri);
    slice_chars(iri, p, iri.len())
}

/// Local name of an IRI (`short_name_from_iri`).
pub fn short_name_from_iri(iri: &str) -> (r: String)
    ensures
        r@ == short_name(iri@),
{
    let v = chars_of(iri);
    let s = short_name_chars(v.as_slice());
    string_from(s.as_slice())
}

/// `s` with `(k, v)` appended unless `k` is already bound.
pub open spec fn add_if_absent(
    s: Seq<(Seq<char>, Seq<char>)>,
    k: Seq<char>,
    v: Seq<char>,
) -> Seq<(Seq<char>, Seq<char>)> {
    if lookup(s, k) is Some {
        s
    } else {
        s.push((k, v))
    }
}

/// The table extended with the `owl`, `rdfs`, `rdf` and `xsd` vocabularies where unbound.
pub open spec fn with_builtins(s: Seq<(Seq<char>, Seq<char>)>) -> Seq<(Seq<char>, Seq<char>)> {
    add_if_absent(
        add_if_absent(
            add_if_absent(
                add_if_absent(s, "owl"@, "http://www.w3.org/2002/07/owl#"@),
                "rdfs"@,
                "http://www.w3.org/2000/01/rdf-schema#"@,
            ),
            "rdf"@,
            "http://www.w3.org/1999/02/22-rdf-syntax-ns#"@,
        ),
        "xsd"@,
        "http://www.w3.org/2001/XMLSchema#"@,
    )
}

fn add_builtin(ns: &mut Namespaces, k: &str, v: &str)
    ensures
        final(ns)@ == add_if_absent(old(ns)@, k@, v@),
{
    let kc = chars_of(k);
    match ns.get_chars(kc.as_slice()) {
        Some(_) => {},
        None => {
            let vc = chars_of(v);
            ns.insert_chars(kc.as_slice(), vc.as_slice());
            proof {
                assert forall|i: int| 0 <= i < old(ns)@.len() implies old(ns)@[i].0 != k@ by {
                    if old(ns)@[i].0 == k@ {
                        assert(exists|j: int| 0 <= j < old(ns)@.len() && old(ns)@[j].0 == k@);
                    }
                }
            }
        },
    }
}

/// The built-in binding of `k` to `v` is in effect in `s`, its namespace starts `iri`, and it
/// is `len` characters long.
pub open spec fn builtin_applies(s: Seq<(Seq<char>, Seq<char>)>, iri: Seq<char>, k: Seq<char>, v: Seq<char>, len: int) -> bool {
    lookup(s, k) == Some(v) && starts_with(iri, v) && v.len() == len
}

/// The built-in vocabulary prefix (`owl`, `rdfs`, `rdf`, `xsd`) bound in `s` to its own
/// namespace, when that namespace starts `iri` and is `len` characters long.
pub open spec fn builtin_tie(s: Seq<(Seq<char>, Seq<char>)>, iri: Seq<char>, len: int) -> Option<Seq<char>> {
    if builtin_applies(s, iri, "owl"@, "http://www.w3.org/2002/07/owl#"@, len) {
        Some("owl"@)
    } else if builtin_applies(s, iri, "rdfs"@, "http://www.w3.org/2000/01/rdf-schema#"@, len) {
        Some("rdfs"@)
    } else if builtin_applies(s, iri, "rdf"@, "http://www.w3.org/1999/02/22-rdf-syntax-ns#"@, len) {
        Some("rdf"@)
    } else if builtin_applies(s, iri, "xsd"@, "http://www.w3.org/2001/XMLSchema#"@, len) {
        Some("xsd"@)
    } else {
        None
    }
}

/// CURIE of `iri` under `s`: the longest matching namespace gives the remainder of the IRI;
/// its prefix is the built-in vocabulary prefix when one is bound to a namespace of that
/// length, else the winning binding's prefix.
pub open spec fn curie_under(s: Seq<(Seq<char>, Seq<char>)>, iri: Seq<char>) -> Option<Seq<char>> {
    match best_match(s, iri) {
        Some(i) => match builtin_tie(s, iri, s[i].1.len() as int) {
            Some(k) => Some(k + ":"@ + iri.skip(s[i].1.len() as int)),
            None => Some(s[i].0 + ":"@ + iri.skip(s[i].1.len() as int)),
        },
        None => None,
    }
}

fn builtin_applies_exec(b: &Namespaces, iri: &[char], k: &str, v: &str, len: usize) -> (r: bool)
    ensures
        r == builtin_applies(b@, iri@, k@, v@, len as int),
{
    let kc = chars_of(k);
    let vc = chars_of(v);
    match b.get_chars(kc.as_slice()) {
        Some(val) => seq_eq(val.as_slice(), vc.as_slice()) && starts_with_exec(iri, vc.as_slice()) && vc.len()
            == len,
        None => false,
    }
}

fn builtin_tie_exec(b: &Namespaces, iri: &[char], len: usize) -> (r: Option<&'static str>)
    ensures
        match r {
            Some(k) => builtin_tie(b@, iri@, len as int) == Some(k@),
            None => builtin_tie(b@, iri@, len as int) is None,
        },
{
    if builtin_applies_exec(b, iri, "owl", "http://www.w3.org/2002/07/owl#", len) {
        Some("owl")
    } else if builtin_applies_exec(b, iri, "rdfs", "http://www.w3.org/2000/01/rdf-schema#", len) {
        Some("rdfs")
    } else if builtin_applies_exec(b, iri, "rdf", "http://www.w3.org/1999/02/22-rdf-syntax-ns#", len) {
        Some("rdf")
    } else if builtin_applies_exec(b, iri, "xsd", "http://www.w3.org/2001/XMLSchema#", len) {
        Some("xsd")
    } else {
        None
    }
}

fn curie_chars(iri: &[char], ns: &Namespaces) -> (r: Option<Vec<char>>)
    ensures
        match r {
            Some(c) => curie_under(with_builtins(ns@), iri@) == Some(c@),
            None => curie_under(with_builtins(ns@), iri@) is None,
        },
{
    let mut b = ns.duplicate();
    add_builtin(&mut b, "owl", "http://www.w3.org/2002/07/owl#");
    add_builtin(&mut b, "rdfs", "http://www.w3.org/2000/01/rdf-schema#");
    add_builtin(&mut b, "rdf", "http://www.w3.org/1999/02/22-rdf-syntax-ns#");
    add_builtin(&mut b, "xsd", "http://www.w3.org/2001/XMLSchema#");
    b.distinct();
    match best_namespace_match(iri, &b) {
        Some(i) => {
            proof {
                lemma_best_match_unique(b@, iri@, i as int);
            }
            let base = b.value_at(i);
            let mut out = match builtin_tie_exec(&b, iri, base.len()) {
                Some(k) => chars_of(k),
                None => slice_chars(b.key_at(i).as_slice(), 0, b.key_at(i).len()),
            };
            push_str(&mut out, ":");
            let local = slice_chars(iri, base.len(), iri.len());
            push_all(&mut out, local.as_slice());
            Some(out)
        },
        None => None,
    }
}

/// Prefer built-in vocabulary CURIEs (`owl:`, `rdfs:`, `rdf:`, `xsd:`) then workspace prefixes:
/// the longest matching namespace wins, and a built-in prefix wins a tie with a workspace
/// prefix bound to a namespace of the same length.
pub fn render_as_curie(iri: &str, ns: &Namespaces) -> (r: Option<String>)
    ensures
        match r {
            Some(c) => curie_under(with_builtins(ns@), iri@) == Some(c@),
            None => curie_under(with_builtins(ns@), iri@) is None,
        },
{
    let v = chars_of(iri);
    match curie_chars(v.as_slice(), ns) {
        Some(c) => Some(string_from(c.as_slice())),
        None => None,
    }
}

/// Display form of an entity IRI: CURIE, else a short name differing from the IRI, else `<iri>`.
pub open spec fn entity_rendering(iri: Seq<char>, ns: Seq<(Seq<char>, Seq<char>)>) -> Seq<char> {
    match curie_under(with_builtins(ns), iri) {
        Some(c) => c,
        None => if short_name(iri).len() > 0 && short_name(iri) != iri {
            short_name(iri)
        } else {
            "<"@ + iri + ">"@
        },
    }
}

/// Render an entity IRI for display: prefer longest prefix CURIE, else short name, else bracketed IRI.
pub fn render_entity_iri(iri: &str, ns: &Namespaces) -> (r: String)
    ensures
        r@ == entity_rendering(iri@, ns@),
{
    let v = chars_of(iri);
    if let Some(c) = curie_chars(v.as_slice(), ns) {
        return string_from(c.as_slice());
    }
    let short = short_name_chars(v.as_slice());
    if short.len() > 0 && !seq_eq(short.as_slice(), v.as_slice()) {
        return string_from(short.as_slice());
    }
    let mut out = chars_of("<");
    push_all(&mut out, v.as_slice());
    push_str(&mut out, ">");
    string_from(out.as_slice())
}

/// Expansion of a `prefix:local` token (after trimming); `<iri>` and tokens containing
/// `://` pass through.
pub open spec fn expansion(token: Seq<char>, ns: Seq<(Seq<char>, Seq<char>)>) -> Option<Seq<char>> {
    let t = trim(token);
    let colon = next_char(t, 0, ':');
    if t.len() == 0 {
        None
    } else if t[0] == '<' && t.last() == '>' && t.len() >= 2 {
        Some(t.subrange(1, t.len() - 1))
    } else if contains(t, "://"@) {
        Some(t)
    } else if colon == t.len() {
        None
    } else {
        match lookup(ns, t.take(colon)) {
            Some(base) => Some(base + t.skip(colon + 1)),
            None => None,
        }
    }
}

/// Expand `prefix:local` using `namespaces`. Bare IRIs and `<iri>` pass through.
pub fn expand_prefixed_iri(token: &str, ns: &Namespaces) -> (r: Option<String>)
    ensures
        match r {
            Some(s) => expansion(token@, ns@) == Some(s@),
            None => expansion(token@, ns@) is None,
        },
{
    let raw = chars_of(token);
    let t = trim_exec(raw.as_slice());
    if t.len() == 0 {
        return None;
    }
    if t[0] == '<' && t[t.len() - 1] == '>' && t.len() >= 2 {
        let inner = slice_chars(t.as_slice(), 1, t.len() - 1);
        return Some(string_from(inner.as_slice()));
    }
    let sep = chars_of("://");
    if contains_exec(t.as_slice(), sep.as_slice()) {
        return Some(string_from(t.as_slice()));
    }
    let colon = next_char_exec(t.as_slice(), 0, ':');
    proof {
        lemma_next_char_bounds(t@, 0, ':');
    }
    if colon == t.len() {
        return None;
    }
    let prefix = slice_chars(t.as_slice(), 0, colon);
    match ns.get_chars(prefix.as_slice()) {
        Some(base) => {
            let mut out = slice_chars(base.as_slice(), 0, base.len());
            let local = slice_chars(t.as_slice(), colon + 1, t.len());
            push_all(&mut out, local.as_slice());
            Some(string_from(out.as_slice()))
        },
        None => None,
    }
}


/// A prefix that can be read back from a CURIE: no `:` in it, and not starting with `<`.
pub open spec fn plain_prefix(k: Seq<char>) -> bool {
    !k.contains(':') && !(k.len() > 0 && k[0] == '<')
}

proof fn lemma_add_if_absent(s: Seq<(Seq<char>, Seq<char>)>, k: Seq<char>, v: Seq<char>)
    requires
        distinct_keys(s),
        forall|i: int| 0 <= i < s.len() ==> plain_prefix(#[trigger] s[i].0),
        plain_prefix(k),
    ensures
        distinct_keys(add_if_absent(s, k, v)),
        forall|i: int| 0 <= i < add_if_absent(s, k, v).len() ==> plain_prefix(#[trigger] add_if_absent(s, k, v)[i].0),
{
    if lookup(s, k) is None {
        let t = s.push((k, v));
        assert forall|i: int| 0 <= i < s.len() implies s[i].0 != k by {
            if s[i].0 == k {
                assert(exists|j: int| 0 <= j < s.len() && s[j].0 == k);
            }
        }
        assert forall|a: int, b: int| 0 <= a < b < t.len() implies t[a].0 != t[b].0 by {
            assert(t[a] == s[a]);
            if b < s.len() {
                assert(t[b] == s[b]);
            }
        }
        assert forall|i: int| 0 <= i < t.len() implies plain_prefix(#[trigger] t[i].0) by {
            if i < s.len() {
                assert(t[i] == s[i]);
            }
        }
    }
}

proof fn lemma_builtins_plain(s: Seq<(Seq<char>, Seq<char>)>)
    requires
        distinct_keys(s),
        forall|i: int| 0 <= i < s.len() ==> plain_prefix(#[trigger] s[i].0),
    ensures
        distinct_keys(with_builtins(s)),
        forall|i: int| 0 <= i < with_builtins(s).len() ==> plain_prefix(#[trigger] with_builtins(s)[i].0),
{
    reveal_strlit("owl");
    reveal_strlit("rdfs");
    reveal_strlit("rdf");
    reveal_strlit("xsd");
    let o = "http://www.w3.org/2002/07/owl#"@;
    let r1 = "http://www.w3.org/2000/01/rdf-schema#"@;
    let r2 = "http://www.w3.org/1999/02/22-rdf-syntax-ns#"@;
    let x = "http://www.w3.org/2001/XMLSchema#"@;
    assert(plain_prefix("owl"@) && plain_prefix("rdfs"@) && plain_prefix("rdf"@) && plain_prefix("xsd"@));
    lemma_add_if_absent(s, "owl"@, o);
    let s1 = add_if_absent(s, "owl"@, o);
    lemma_add_if_absent(s1, "rdfs"@, r1);
    let s2 = add_if_absent(s1, "rdfs"@, r1);
    lemma_add_if_absent(s2, "rdf"@, r2);
    let s3 = add_if_absent(s2, "rdf"@, r2);
    lemma_add_if_absent(s3, "xsd"@, x);
}

proof fn lemma_next_colon(t: Seq<char>, k: Seq<char>, j: int)
    requires
        0 <= j <= k.len() < t.len(),
        t.take(k.len() as int) == k,
        t[k.len() as int] == ':',
        !k.contains(':'),
    ensures
        next_char(t, j, ':') == k.len(),
    decreases k.len() - j,
{
    if j < k.len() {
        assert(t[j] == k[j]);
        if t[j] == ':' {
            assert(k.contains(':'));
        }
        lemma_next_colon(t, k, j + 1);
    }
}

proof fn lemma_trim_no_ws(c: Seq<char>)
    requires
        c.len() > 0,
        forall|i: int| 0 <= i < c.len() ==> !is_ws(#[trigger] c[i]),
    ensures
        trim(c) == c,
{
    assert(skip_ws(c, 0) == 0);
    assert(trim_start(c) =~= c);
    assert(trim_end_at(c, c.len() as int) == c.len());
    assert(trim_end(c) =~= c);
}

/// Law: expanding a rendered CURIE gives back the IRI, under the table it was rendered with
/// (the caller's prefixes and the built-in vocabularies), when no prefix holds `:` or starts
/// with `<` and the CURIE has no whitespace and no `://`.
pub proof fn law_expand_rendered_curie(ns: Seq<(Seq<char>, Seq<char>)>, iri: Seq<char>)
    requires
        distinct_keys(ns),
        forall|i: int| 0 <= i < ns.len() ==> plain_prefix(#[trigger] ns[i].0),
        curie_under(with_builtins(ns), iri) is Some,
        forall|i: int|
            0 <= i < curie_under(with_builtins(ns), iri)->Some_0.len() ==> !is_ws(
                #[trigger] curie_under(with_builtins(ns), iri)->Some_0[i],
            ),
        !contains(curie_under(with_builtins(ns), iri)->Some_0, "://"@),
    ensures
        expansion(curie_under(with_builtins(ns), iri)->Some_0, with_builtins(ns)) == Some(iri),
{
    let s = with_builtins(ns);
    lemma_builtins_plain(ns);
    let i = best_match(s, iri)->Some_0;
    assert(is_best_match(s, iri, i));
    let len = s[i].1.len() as int;
    let rest = iri.skip(len);
    assert(iri =~= s[i].1 + rest);
    let (k, base) = match builtin_tie(s, iri, len) {
        Some(k) => (k, lookup(s, k)->Some_0),
        None => (s[i].0, s[i].1),
    };
    reveal_strlit("owl");
    reveal_strlit("rdfs");
    reveal_strlit("rdf");
    reveal_strlit("xsd");
    if builtin_tie(s, iri, len) is None {
        lemma_lookup_at(s, i);
        assert(plain_prefix(s[i].0));
    } else {
        assert(base =~= iri.take(len));
        assert(base =~= s[i].1);
        assert(plain_prefix("owl"@) && plain_prefix("rdfs"@) && plain_prefix("rdf"@) && plain_prefix("xsd"@));
    }
    assert(lookup(s, k) == Some(base));
    assert(plain_prefix(k));
    assert(k.len() > 0);
    reveal_strlit(":");
    let c = k + ":"@ + rest;
    assert(c == curie_under(s, iri)->Some_0);
    lemma_trim_no_ws(c);
    assert(c.take(k.len() as int) =~= k);
    assert(c[k.len() as int] == ':');
    lemma_next_colon(c, k, 0);
    assert(c[0] == k[0]);
    assert(c.skip(k.len() as int + 1) =~= rest);
}

/// Longest-prefix match: `(prefix, namespace_iri)` of the winning binding.
pub fn match_prefix(iri: &str, ns: &Namespaces) -> (r: Option<(String, String)>)
    ensures
        match r {
            Some((p, n)) => exists|i: int|
                best_match(ns@, iri@) == Some(i) && is_best_match(ns@, iri@, i) && ns@[i] == (p@, n@),
            None => best_match(ns@, iri@) is None,
        },
        r is None <==> forall|j: int| !is_candidate(ns@, iri@, j),
{
    let v = chars_of(iri);
    ns.distinct();
    match best_namespace_match(v.as_slice(), ns) {
        Some(i) => {
            proof {
                lemma_best_match_unique(ns@, iri@, i as int);
            }
            Some((string_from(ns.key_at(i).as_slice()), string_from(ns.value_at(i).as_slice())))
        },
        None => None,
    }
}

/// Escaped form of one character in a Manchester rendering.
pub open spec fn escape_char(c: char) -> Seq<char> {
    if c == '\\' {
        seq!['\\', '\\']
    } else if c == '\'' {
        seq!['\\', '\'']
    } else if c == '"' {
        seq!['\\', '"']
    } else {
        seq![c]
    }
}

/// Backslash-escaping of every `\`, `'` and `"`.
pub open spec fn escape_body(s: Seq<char>) -> Seq<char>
    decreases s.len(),
{
    if s.len() == 0 {
        Seq::empty()
    } else {
        escape_char(s[0]) + escape_body(s.drop_first())
    }
}

/// Characters that force a quoted Manchester rendering.
pub open spec fn needs_quote_char(c: char) -> bool {
    c == ' ' || c == '\\' || c == ',' || c == '<' || c == '>' || c == '=' || c == '^' || c == '@'
        || c == '{' || c == '}' || c == '[' || c == ']' || c == '(' || c == ')'
}

/// Manchester-style escaped rendering: escaped body, single-quoted when a special char occurs.
pub open spec fn escape_manchester_spec(s: Seq<char>) -> Seq<char> {
    if exists|i: int| 0 <= i < s.len() && needs_quote_char(#[trigger] s[i]) {
        "'"@ + escape_body(s) + "'"@
    } else {
        escape_body(s)
    }
}

proof fn lemma_escape_body_snoc(s: Seq<char>, c: char)
    ensures
        escape_body(s.push(c)) == escape_body(s) + escape_char(c),
    decreases s.len(),
{
    if s.len() == 0 {
        assert(s.push(c).drop_first() =~= Seq::<char>::empty());
        assert(escape_body(Seq::<char>::empty()) == Seq::<char>::empty());
    } else {
        lemma_escape_body_snoc(s.drop_first(), c);
        assert(s.push(c).drop_first() =~= s.drop_first().push(c));
    }
}

/// Manchester-style escaped rendering (`RenderingEscapeUtils.getEscapedRendering`).
pub fn escape_manchester_rendering(original: &str) -> (r: String)
    ensures
        r@ == escape_manchester_spec(original@),
{
    let s = chars_of(original);
    let mut body: Vec<char> = Vec::new();
    let mut quote = false;
    let mut i: usize = 0;
    while i < s.len()
        invariant
            0 <= i <= s.len(),
            s@ == original@,
            body@ == escape_body(s@.take(i as int)),
            quote == exists|k: int| 0 <= k < i && needs_quote_char(#[trigger] s@[k]),
        decreases s.len() - i,
    {
        let c = s[i];
        proof {
            lemma_escape_body_snoc(s@.take(i as int), c);
            assert(s@.take(i + 1) == s@.take(i as int).push(c));
        }
        if c == '\\' {
            body.push('\\');
            body.push('\\');
        } else if c == '\'' {
            body.push('\\');
            body.push('\'');
        } else if c == '"' {
            body.push('\\');
            body.push('"');
        } else {
            body.push(c);
        }
        assert(body@ == escape_body(s@.take(i + 1)));
        if c == ' ' || c == '\\' || c == ',' || c == '<' || c == '>' || c == '=' || c == '^' || c
            == '@' || c == '{' || c == '}' || c == '[' || c == ']' || c == '(' || c == ')' {
            quote = true;
        }
        i += 1;
    }
    assert(s@.take(i as int) == s@);
    if quote {
        let mut out = chars_of("'");
        push_all(&mut out, body.as_slice());
        push_str(&mut out, "'");
        string_from(out.as_slice())
    } else {
        string_from(body.as_slice())
    }
}

/// Inverse rendering: strip surrounding single quotes, then undo `\"`, `\'` and `\\` in turn.
pub open spec fn unescape_manchester_spec(r: Seq<char>) -> Seq<char> {
    let s = if r.len() >= 2 && r[0] == '\'' && r.last() == '\'' {
        r.subrange(1, r.len() - 1)
    } else {
        r
    };
    replace_all(
        replace_all(replace_all(s, "\\\""@, "\""@), "\\'"@, "'"@),
        "\\\\"@,
        "\\"@,
    )
}

/// Inverse of [`escape_manchester_rendering`] (`RenderingEscapeUtils.unescape`).
pub fn unescape_manchester_rendering(rendering: &str) -> (r: String)
    ensures
        r@ == unescape_manchester_spec(rendering@),
{
    let v = chars_of(rendering);
    let s = if v.len() >= 2 && v[0] == '\'' && v[v.len() - 1] == '\'' {
        slice_chars(v.as_slice(), 1, v.len() - 1)
    } else {
        v
    };
    proof {
        reveal_strlit("\\\"");
        reveal_strlit("\\'");
        reveal_strlit("\\\\");
    }
    let a = replace_str(s.as_slice(), "\\\"", "\"");
    let b = replace_str(a.as_slice(), "\\'", "'");
    let c = replace_str(b.as_slice(), "\\\\", "\\");
    string_from(c.as_slice())
}

/// The text after undoing `\"`: each character as escaped, except `"` written plainly.
spec fn quotes_restored(s: Seq<char>) -> Seq<char>
    decreases s.len(),
{
    if s.len() == 0 {
        Seq::empty()
    } else {
        (if s[0] == '"' {
            seq!['"']
        } else {
            escape_char(s[0])
        }) + quotes_restored(s.drop_first())
    }
}

/// The text after also undoing `\'`: only backslashes are still doubled.
spec fn backslashes_doubled(s: Seq<char>) -> Seq<char>
    decreases s.len(),
{
    if s.len() == 0 {
        Seq::empty()
    } else {
        (if s[0] == '\\' {
            seq!['\\', '\\']
        } else {
            seq![s[0]]
        }) + backslashes_doubled(s.drop_first())
    }
}

proof fn lemma_escape_body_first(s: Seq<char>)
    requires
        s.len() > 0,
    ensures
        escape_body(s).len() > 0,
        escape_body(s)[0] != '"',
        escape_body(s)[0] != '\'',
{
    assert(escape_body(s) == escape_char(s[0]) + escape_body(s.drop_first()));
}

proof fn lemma_undo_quotes(s: Seq<char>)
    ensures
        replace_all(escape_body(s), seq!['\\', '"'], seq!['"']) == quotes_restored(s),
    decreases s.len(),
{
    let pat = seq!['\\', '"'];
    let rep = seq!['"'];
    if s.len() > 0 {
        lemma_undo_quotes(s.drop_first());
        let rest = escape_body(s.drop_first());
        let t = escape_body(s);
        let c = s[0];
        assert(t == escape_char(c) + rest);
        if s.drop_first().len() > 0 {
            lemma_escape_body_first(s.drop_first());
        }
        if c == '"' {
            assert(t.subrange(0, 2) =~= pat);
            assert(t.skip(2) =~= rest);
        } else if c == '\\' || c == '\'' {
            assert(!starts_with(t, pat));
            let u = t.drop_first();
            assert(u =~= seq![escape_char(c)[1]] + rest);
            assert(!starts_with(u, pat)) by {
                if starts_with(u, pat) {
                    assert(u.subrange(0, 2)[1] == rest[0]);
                }
            }
            assert(u.drop_first() =~= rest);
            assert(replace_all(u, pat, rep) == seq![escape_char(c)[1]] + replace_all(rest, pat, rep));
            assert(replace_all(t, pat, rep) =~= escape_char(c) + replace_all(rest, pat, rep));
        } else {
            assert(!starts_with(t, pat));
            assert(t.drop_first() =~= rest);
        }
    }
}

proof fn lemma_quotes_restored_first(s: Seq<char>)
    requires
        s.len() > 0,
    ensures
        quotes_restored(s).len() > 0,
        quotes_restored(s)[0] != '\'',
{
}

proof fn lemma_undo_apostrophes(s: Seq<char>)
    ensures
        replace_all(quotes_restored(s), seq!['\\', '\''], seq!['\'']) == backslashes_doubled(s),
    decreases s.len(),
{
    let pat = seq!['\\', '\''];
    let rep = seq!['\''];
    if s.len() > 0 {
        lemma_undo_apostrophes(s.drop_first());
        let rest = quotes_restored(s.drop_first());
        let t = quotes_restored(s);
        let c = s[0];
        if s.drop_first().len() > 0 {
            lemma_quotes_restored_first(s.drop_first());
        }
        if c == '\'' {
            assert(t =~= seq!['\\', '\''] + rest);
            assert(t.subrange(0, 2) =~= pat);
            assert(t.skip(2) =~= rest);
        } else if c == '\\' {
            assert(t =~= seq!['\\', '\\'] + rest);
            assert(!starts_with(t, pat));
            let u = t.drop_first();
            assert(u =~= seq!['\\'] + rest);
            assert(!starts_with(u, pat)) by {
                if starts_with(u, pat) {
                    assert(u.subrange(0, 2)[1] == rest[0]);
                }
            }
            assert(u.drop_first() =~= rest);
            assert(replace_all(u, pat, rep) == seq!['\\'] + replace_all(rest, pat, rep));
            assert(replace_all(t, pat, rep) == seq![t[0]] + replace_all(u, pat, rep));
            assert(replace_all(t, pat, rep) =~= seq!['\\', '\\'] + replace_all(rest, pat, rep));
        } else if c == '"' {
            assert(t =~= seq!['"'] + rest);
            assert(!starts_with(t, pat));
            assert(t.drop_first() =~= rest);
        } else {
            assert(t =~= seq![c] + rest);
            assert(!starts_with(t, pat));
            assert(t.drop_first() =~= rest);
        }
    }
}

proof fn lemma_undo_backslashes(s: Seq<char>)
    ensures
        replace_all(backslashes_doubled(s), seq!['\\', '\\'], seq!['\\']) == s,
    decreases s.len(),
{
    let pat = seq!['\\', '\\'];
    let rep = seq!['\\'];
    if s.len() > 0 {
        lemma_undo_backslashes(s.drop_first());
        let rest = backslashes_doubled(s.drop_first());
        let t = backslashes_doubled(s);
        if s[0] == '\\' {
            assert(t =~= pat + rest);
            assert(t.subrange(0, 2) =~= pat);
            assert(t.skip(2) =~= rest);
        } else {
            assert(t =~= seq![s[0]] + rest);
            assert(!starts_with(t, pat));
            assert(t.drop_first() =~= rest);
        }
        assert(s =~= seq![s[0]] + s.drop_first());
    }
}

/// Law: unescaping an escaped rendering gives back the original text, for every text.
pub proof fn law_manchester_escape_roundtrip(s: Seq<char>)
    ensures
        unescape_manchester_spec(escape_manchester_spec(s)) == s,
{
    reveal_strlit("\\\"");
    reveal_strlit("\"");
    reveal_strlit("\\'");
    reveal_strlit("'");
    reveal_strlit("\\\\");
    reveal_strlit("\\");
    assert("\\\""@ =~= seq!['\\', '"']);
    assert("\""@ =~= seq!['"']);
    assert("\\'"@ =~= seq!['\\', '\'']);
    assert("'"@ =~= seq!['\'']);
    assert("\\\\"@ =~= seq!['\\', '\\']);
    assert("\\"@ =~= seq!['\\']);
    let body = escape_body(s);
    let r = escape_manchester_spec(s);
    let stripped = if r.len() >= 2 && r[0] == '\'' && r.last() == '\'' {
        r.subrange(1, r.len() - 1)
    } else {
        r
    };
    if exists|i: int| 0 <= i < s.len() && needs_quote_char(#[trigger] s[i]) {
        assert(r == "'"@ + body + "'"@);
        assert(stripped =~= body);
    } else {
        assert(r == body);
        if s.len() > 0 {
            lemma_escape_body_first(s);
        }
        assert(stripped == body);
    }
    lemma_undo_quotes(s);
    lemma_undo_apostrophes(s);
    lemma_undo_backslashes(s);
}

/// Law: the namespace and the local name of an IRI, put back together, are the IRI.
pub proof fn law_split_iri_rejoins(iri: Seq<char>)
    ensures
        split_iri_spec(iri).0 + split_iri_spec(iri).1 == iri,
{
    lemma_last_index_bounds(iri, '#');
    lemma_last_index_bounds(iri, '/');
    let h = last_index(iri, '#');
    let s = last_index(iri, '/');
    if h >= 0 {
        assert(iri.take(h + 1) + iri.skip(h + 1) =~= iri);
    } else if s >= 0 {
        assert(iri.take(s + 1) + iri.skip(s + 1) =~= iri);
    } else {
        assert(Seq::<char>::empty() + iri =~= iri);
    }
}

} // verus!
