//! Locating Turtle statements: prefix declarations, subject lines and statement ranges.
use vstd::prelude::*;
use crate::iri::{best_match, lemma_best_match_unique, valid_pn_local, is_valid_pn_local};
use crate::iri::{bracketed, curie};
use crate::lex::{
    has_type_predicate, has_type_predicate_exec, in_comment_or_string, in_comment_or_string_exec, lemma_stmt_end_dot,
    lemma_stmt_end_range, statement_end, statement_end_exec, Lex,
};
use crate::namespaces::{
    assoc_extend, assoc_insert, best_namespace_match, distinct_keys, law_extend_then_lookup, law_insert_then_lookup,
    lookup, Namespaces,
};
use crate::text::{
    chars_of, eq_ignore_case, eq_ignore_case_exec, is_ws, lemma_line_bounds,
    lemma_skip_ws_bounds, line_at, line_bounds, next_line_start, push_all, skip_ws,
    skip_ws_exec, slice_chars, starts_with, starts_with_exec, token_after, token_after_exec,
    trim, trim_exec, ws, string_from, byte_offset, byte_offsets, char_at_byte,
    char_at_byte_exec, lemma_byte_offset_bound, lemma_byte_offset_step,
};

verus! {

/// `s` without its trailing run of `c` (`trim_end_matches`).
pub open spec fn strip_trailing(s: Seq<char>, c: char) -> Seq<char>
    decreases s.len(),
{
    if s.len() > 0 && s.last() == c {
        strip_trailing(s.drop_last(), c)
    } else {
        s
    }
}

pub fn strip_trailing_exec(s: &[char], c: char) -> (r: Vec<char>)
    ensures
        r@ == strip_trailing(s@, c),
{
    let mut e = s.len();
    assert(s@.subrange(0, e as int) == s@);
    while e > 0 && s[e - 1] == c
        invariant
            e <= s.len(),
            strip_trailing(s@, c) == strip_trailing(s@.subrange(0, e as int), c),
        decreases e,
    {
        assert(s@.subrange(0, e as int).drop_last() == s@.subrange(0, e - 1));
        e -= 1;
    }
    slice_chars(s, 0, e)
}

/// Namespace IRI of a prefix declaration's IRI token: `<...>` (trailing dots ignored) with a
/// non-empty content free of `<` and `>`.
pub open spec fn prefix_iri(token: Seq<char>) -> Option<Seq<char>> {
    let t = strip_trailing(token, '.');
    if !(t.len() >= 1 && t[0] == '<' && t.last() == '>') || t.len() < 2 {
        None
    } else {
        let inner = t.subrange(1, t.len() - 1);
        if inner.len() == 0 || inner.contains('<') || inner.contains('>') {
            None
        } else {
            Some(inner)
        }
    }
}

fn prefix_iri_exec(token: &[char]) -> (r: Option<Vec<char>>)
    ensures
        match r {
            Some(v) => prefix_iri(token@) == Some(v@),
            None => prefix_iri(token@) is None,
        },
{
    let t = strip_trailing_exec(token, '.');
    if !(t.len() >= 1 && t[0] == '<' && t[t.len() - 1] == '>') || t.len() < 2 {
        return None;
    }
    let inner = slice_chars(t.as_slice(), 1, t.len() - 1);
    if inner.len() == 0 {
        return None;
    }
    let mut k: usize = 0;
    while k < inner.len()
        invariant
            0 <= k <= inner.len(),
            forall|j: int| 0 <= j < k ==> inner@[j] != '<' && inner@[j] != '>',
            t@ == strip_trailing(token@, '.'),
            t@.len() >= 2 && t@[0] == '<' && t@.last() == '>',
            inner@ == t@.subrange(1, t@.len() - 1),
            inner@.len() > 0,
        decreases inner.len() - k,
    {
        if inner[k] == '<' {
            assert(inner@[k as int] == '<');
            assert(inner@.contains('<'));
            return None;
        }
        if inner[k] == '>' {
            assert(inner@[k as int] == '>');
            assert(inner@.contains('>'));
            return None;
        }
        k += 1;
    }
    Some(inner)
}

/// Prefix declaration on a line (`@prefix`, `@PREFIX`, `PREFIX`, any ASCII case): the
/// prefix (trailing `:` removed) and namespace IRI, from the first three whitespace tokens.
pub open spec fn prefix_decl(line: Seq<char>) -> Option<(Seq<char>, Seq<char>)> {
    let tr = trim(line);
    if tr.len() == 0 || tr[0] == '#' {
        None
    } else {
        match token_after(tr, 0) {
            None => None,
            Some((a, b)) => if !(eq_ignore_case(tr.subrange(a, b), "@prefix"@) || eq_ignore_case(
                tr.subrange(a, b),
                "PREFIX"@,
            )) {
                None
            } else {
                match token_after(tr, b) {
                    None => None,
                    Some((c, d)) => match token_after(tr, d) {
                        None => None,
                        Some((e, f)) => match prefix_iri(tr.subrange(e, f)) {
                            Some(u) => Some((strip_trailing(tr.subrange(c, d), ':'), u)),
                            None => None,
                        },
                    },
                }
            },
        }
    }
}

fn prefix_decl_exec(line: &[char]) -> (r: Option<(Vec<char>, Vec<char>)>)
    ensures
        match r {
            Some((p, u)) => prefix_decl(line@) == Some((p@, u@)),
            None => prefix_decl(line@) is None,
        },
{
    let tr = trim_exec(line);
    if tr.len() == 0 || tr[0] == '#' {
        return None;
    }
    let (a, b) = match token_after_exec(tr.as_slice(), 0) {
        Some(x) => x,
        None => return None,
    };
    let kw = slice_chars(tr.as_slice(), a, b);
    let at_prefix = chars_of("@prefix");
    let prefix_kw = chars_of("PREFIX");
    if !(eq_ignore_case_exec(kw.as_slice(), at_prefix.as_slice()) || eq_ignore_case_exec(
        kw.as_slice(),
        prefix_kw.as_slice(),
    )) {
        return None;
    }
    let (c, d) = match token_after_exec(tr.as_slice(), b) {
        Some(x) => x,
        None => return None,
    };
    let (e, f) = match token_after_exec(tr.as_slice(), d) {
        Some(x) => x,
        None => return None,
    };
    let uri_tok = slice_chars(tr.as_slice(), e, f);
    match prefix_iri_exec(uri_tok.as_slice()) {
        Some(u) => {
            let ptok = slice_chars(tr.as_slice(), c, d);
            let p = strip_trailing_exec(ptok.as_slice(), ':');
            Some((p, u))
        },
        None => None,
    }
}

/// Prefix table declared by the lines of `t` from line start `i` on, added to `acc`.
pub open spec fn prefixes_from(
    t: Seq<char>,
    i: int,
    acc: Seq<(Seq<char>, Seq<char>)>,
) -> Seq<(Seq<char>, Seq<char>)>
    decreases t.len() + 1 - i,
{
    if i < 0 || i >= t.len() {
        acc
    } else {
        proof {
            lemma_line_bounds(t, i);
        }
        prefixes_from(
            t,
            next_line_start(t, i),
            match prefix_decl(line_at(t, i)) {
                Some((p, u)) => assoc_insert(acc, p, u),
                None => acc,
            },
        )
    }
}

/// Prefix table of a Turtle/SPARQL text: every prefix declaration line, later ones winning.
pub open spec fn declared_prefixes(t: Seq<char>) -> Seq<(Seq<char>, Seq<char>)> {
    prefixes_from(t, 0, Seq::empty())
}

/// Parse prefix declarations of a character text.
pub fn prefixes_of(t: &[char]) -> (r: Namespaces)
    ensures
        r@ == declared_prefixes(t@),
{
    let mut ns = Namespaces::new();
    let mut i: usize = 0;
    while i < t.len()
        invariant
            i <= t.len(),
            declared_prefixes(t@) == prefixes_from(t@, i as int, ns@),
        decreases t.len() - i,
    {
        let (ce, nl) = line_bounds(t, i);
        let line = slice_chars(t, i, ce);
        match prefix_decl_exec(line.as_slice()) {
            Some((p, u)) => {
                ns.insert_chars(p.as_slice(), u.as_slice());
            },
            None => {},
        }
        assert(line@ == line_at(t@, i as int));
        if nl >= t.len() {
            assert(prefixes_from(t@, nl + 1, ns@) == ns@);
            i = t.len();
        } else {
            i = nl + 1;
        }
    }
    ns
}

/// Parse Turtle/SPARQL prefix declarations (`@prefix`, `@PREFIX`, `PREFIX`; case-insensitive).
pub fn prefixes_from_turtle(source_text: &str) -> (r: Namespaces)
    ensures
        r@ == declared_prefixes(source_text@),
{
    let t = chars_of(source_text);
    prefixes_of(t.as_slice())
}

/// Declared table extended with the text's own prefix declarations (which win).
pub open spec fn namespaces_for(
    t: Seq<char>,
    declared: Seq<(Seq<char>, Seq<char>)>,
) -> Seq<(Seq<char>, Seq<char>)> {
    assoc_extend(declared, declared_prefixes(t))
}


/// The prefix table read from a text binds each prefix once.
proof fn lemma_prefixes_from_distinct(t: Seq<char>, i: int, acc: Seq<(Seq<char>, Seq<char>)>)
    requires
        distinct_keys(acc),
    ensures
        distinct_keys(prefixes_from(t, i, acc)),
    decreases t.len() + 1 - i,
{
    if 0 <= i < t.len() {
        lemma_line_bounds(t, i);
        match prefix_decl(line_at(t, i)) {
            Some((p, u)) => {
                law_insert_then_lookup(acc, p, u, p);
                lemma_prefixes_from_distinct(t, next_line_start(t, i), assoc_insert(acc, p, u));
            },
            None => {
                lemma_prefixes_from_distinct(t, next_line_start(t, i), acc);
            },
        }
    }
}

/// Law: in the namespaces in effect for a text (`namespaces_for_text`), a prefix the text
/// declares has the text's namespace (its last declaration), and any other prefix keeps the
/// caller's binding.
pub proof fn law_text_prefixes_override(t: Seq<char>, declared: Seq<(Seq<char>, Seq<char>)>, k: Seq<char>)
    requires
        distinct_keys(declared),
    ensures
        lookup(namespaces_for(t, declared), k) == match lookup(declared_prefixes(t), k) {
            Some(v) => Some(v),
            None => lookup(declared, k),
        },
{
    lemma_prefixes_from_distinct(t, 0, Seq::empty());
    law_extend_then_lookup(declared, declared_prefixes(t), k);
}

/// Namespaces in effect for a text (character form).
pub fn namespaces_for_chars(t: &[char], declared: &Namespaces) -> (r: Namespaces)
    ensures
        r@ == namespaces_for(t@, declared@),
{
    let mut merged = declared.duplicate();
    let found = prefixes_of(t);
    let mut k: usize = 0;
    assert(found@.skip(0) == found@);
    while k < found.len()
        invariant
            0 <= k <= found@.len(),
            namespaces_for(t@, declared@) == assoc_extend(merged@, found@.skip(k as int)),
            found@ == declared_prefixes(t@),
        decreases found@.len() - k,
    {
        assert(found@.skip(k as int).drop_first() == found@.skip(k + 1));
        merged.insert_chars(found.key_at(k).as_slice(), found.value_at(k).as_slice());
        k += 1;
    }
    merged
}

/// Namespaces in effect for a text: the declared table plus the text's own declarations.
pub fn namespaces_for_text(source_text: &str, declared: &Namespaces) -> (r: Namespaces)
    ensures
        r@ == namespaces_for(source_text@, declared@),
{
    let t = chars_of(source_text);
    namespaces_for_chars(t.as_slice(), declared)
}

} // verus!

verus! {

/// The sequences viewed by a vector of character vectors.
pub open spec fn views(v: Seq<Vec<char>>) -> Seq<Seq<char>> {
    v.map_values(|x: Vec<char>| x@)
}

/// Append `o` when present.
pub open spec fn opt_push(s: Seq<Seq<char>>, o: Option<Seq<char>>) -> Seq<Seq<char>> {
    match o {
        Some(x) => s.push(x),
        None => s,
    }
}

/// `:local` when the empty prefix is bound to a namespace starting `iri` and the rest is a
/// valid `PN_LOCAL`.
pub open spec fn default_prefix_form(iri: Seq<char>, ns: Seq<(Seq<char>, Seq<char>)>) -> Option<
    Seq<char>,
> {
    match lookup(ns, Seq::empty()) {
        Some(d) => if starts_with(iri, d) && valid_pn_local(iri.skip(d.len() as int)) {
            Some(":"@ + iri.skip(d.len() as int))
        } else {
            None
        },
        None => None,
    }
}

/// `prefix:local` under the longest matching namespace, when the rest is a valid `PN_LOCAL`.
pub open spec fn curie_form(iri: Seq<char>, ns: Seq<(Seq<char>, Seq<char>)>) -> Option<Seq<char>> {
    match best_match(ns, iri) {
        Some(k) => if valid_pn_local(iri.skip(ns[k].1.len() as int)) {
            Some(ns[k].0 + ":"@ + iri.skip(ns[k].1.len() as int))
        } else {
            None
        },
        None => None,
    }
}

/// Surface forms under which `iri` may start a subject line: `<iri>`, then the default-prefix
/// form, then the longest-prefix CURIE.
pub open spec fn needles_for(iri: Seq<char>, ns: Seq<(Seq<char>, Seq<char>)>) -> Seq<Seq<char>> {
    opt_push(opt_push(seq!["<"@ + iri + ">"@], default_prefix_form(iri, ns)), curie_form(iri, ns))
}

pub fn default_prefix_form_exec(iri: &[char], ns: &Namespaces) -> (r: Option<Vec<char>>)
    ensures
        match r {
            Some(v) => default_prefix_form(iri@, ns@) == Some(v@),
            None => default_prefix_form(iri@, ns@) is None,
        },
{
    let empty: Vec<char> = Vec::new();
    match ns.get_chars(empty.as_slice()) {
        Some(d) => {
            assert(empty@ =~= Seq::<char>::empty());
            if starts_with_exec(iri, d.as_slice()) {
                let local = slice_chars(iri, d.len(), iri.len());
                if is_valid_pn_local(local.as_slice()) {
                    let mut out = chars_of(":");
                    push_all(&mut out, local.as_slice());
                    return Some(out);
                }
            }
            None
        },
        None => {
            assert(empty@ =~= Seq::<char>::empty());
            None
        },
    }
}

pub fn curie_form_exec(iri: &[char], ns: &Namespaces) -> (r: Option<Vec<char>>)
    ensures
        match r {
            Some(v) => curie_form(iri@, ns@) == Some(v@),
            None => curie_form(iri@, ns@) is None,
        },
{
    ns.distinct();
    match best_namespace_match(iri, ns) {
        Some(k) => {
            proof {
                lemma_best_match_unique(ns@, iri@, k as int);
            }
            let nsv = ns.value_at(k);
            let local = slice_chars(iri, nsv.len(), iri.len());
            if is_valid_pn_local(local.as_slice()) {
                Some(curie(ns.key_at(k).as_slice(), local.as_slice()))
            } else {
                None
            }
        },
        None => {
            assert(best_match(ns@, iri@) is None);
            None
        },
    }
}

pub fn needles_exec(iri: &[char], ns: &Namespaces) -> (r: Vec<Vec<char>>)
    ensures
        views(r@) == needles_for(iri@, ns@),
{
    let mut out: Vec<Vec<char>> = Vec::new();
    out.push(bracketed(iri));
    assert(views(out@) =~= seq!["<"@ + iri@ + ">"@]);
    let ghost s0 = views(out@);
    match default_prefix_form_exec(iri, ns) {
        Some(v) => {
            out.push(v);
            assert(views(out@) =~= s0.push(v@));
        },
        None => {},
    }
    let ghost s1 = views(out@);
    assert(s1 == opt_push(s0, default_prefix_form(iri@, ns@)));
    match curie_form_exec(iri, ns) {
        Some(v) => {
            out.push(v);
            assert(views(out@) =~= s1.push(v@));
        },
        None => {},
    }
    out
}

/// Subject-line test for views (`subject_needles`): the candidate spellings of `iri`.
pub fn subject_needles(iri: &str, short_name: &str, namespaces: &Namespaces) -> (r: Vec<String>)
    ensures
        r@.map_values(|s: String| s@) == needles_for(iri@, namespaces@),
{
    let t = chars_of(iri);
    let nd = needles_exec(t.as_slice(), namespaces);
    let mut out: Vec<String> = Vec::new();
    let mut k: usize = 0;
    while k < nd.len()
        invariant
            0 <= k <= nd@.len(),
            out@.map_values(|s: String| s@) =~= views(nd@).take(k as int),
        decreases nd@.len() - k,
    {
        out.push(string_from(nd[k].as_slice()));
        assert(views(nd@).take(k + 1) =~= views(nd@).take(k as int).push(nd@[k as int]@));
        k += 1;
    }
    assert(views(nd@).take(k as int) =~= views(nd@));
    out
}

/// `trimmed` starts with `needle`, followed by its end, whitespace, `;` or `.`.
pub open spec fn subject_at(trimmed: Seq<char>, needle: Seq<char>) -> bool {
    starts_with(trimmed, needle) && (trimmed.len() == needle.len() || is_ws(trimmed[needle.len() as int])
        || trimmed[needle.len() as int] == ';' || trimmed[needle.len() as int] == '.')
}

/// Some needle is the subject at the start of a trimmed line.
pub open spec fn line_has_subject(trimmed: Seq<char>, needles: Seq<Seq<char>>) -> bool {
    exists|k: int| 0 <= k < needles.len() && subject_at(trimmed, #[trigger] needles[k])
}

fn subject_at_exec(trimmed: &[char], needle: &[char]) -> (r: bool)
    ensures
        r == subject_at(trimmed@, needle@),
{
    if !starts_with_exec(trimmed, needle) {
        return false;
    }
    let n = needle.len();
    n == trimmed.len() || ws(trimmed[n]) || trimmed[n] == ';' || trimmed[n] == '.'
}

fn line_has_subject_exec(trimmed: &[char], needles: &Vec<Vec<char>>) -> (r: bool)
    ensures
        r == line_has_subject(trimmed@, views(needles@)),
{
    let mut k: usize = 0;
    while k < needles.len()
        invariant
            0 <= k <= needles@.len(),
            forall|j: int| 0 <= j < k ==> !subject_at(trimmed@, #[trigger] views(needles@)[j]),
        decreases needles@.len() - k,
    {
        if subject_at_exec(trimmed, needles[k].as_slice()) {
            assert(views(needles@)[k as int] == needles@[k as int]@);
            return true;
        }
        assert(views(needles@)[k as int] == needles@[k as int]@);
        k += 1;
    }
    false
}

/// Character indices where a statement for one of `needles` starts, scanning lines from the
/// line start `i`: lines whose trimmed form starts with `@` are skipped; otherwise the first
/// non-whitespace character starts a statement when a needle is the subject there.
pub open spec fn subject_starts_from(t: Seq<char>, i: int, needles: Seq<Seq<char>>) -> Seq<int>
    decreases t.len() + 1 - i,
{
    if i < 0 || i >= t.len() {
        Seq::empty()
    } else {
        proof {
            lemma_line_bounds(t, i);
        }
        let line = line_at(t, i);
        let s = skip_ws(line, 0);
        let rest = subject_starts_from(t, next_line_start(t, i), needles);
        if s < line.len() && line[s] == '@' {
            rest
        } else if line_has_subject(line.skip(s), needles) {
            seq![i + s] + rest
        } else {
            rest
        }
    }
}

pub proof fn lemma_subject_starts_range(t: Seq<char>, i: int, needles: Seq<Seq<char>>)
    requires
        0 <= i,
        forall|k: int| 0 <= k < needles.len() ==> (#[trigger] needles[k]).len() > 0,
    ensures
        forall|k: int|
            0 <= k < subject_starts_from(t, i, needles).len() ==> i <= #[trigger] subject_starts_from(
                t,
                i,
                needles,
            )[k] < t.len(),
        forall|k: int, m: int|
            0 <= k < m < subject_starts_from(t, i, needles).len() ==> #[trigger] subject_starts_from(
                t,
                i,
                needles,
            )[k] < #[trigger] subject_starts_from(t, i, needles)[m],
    decreases t.len() + 1 - i,
{
    if i < t.len() {
        lemma_line_bounds(t, i);
        let line = line_at(t, i);
        lemma_skip_ws_bounds(line, 0);
        let n = next_line_start(t, i);
        lemma_subject_starts_range(t, n, needles);
        let s = skip_ws(line, 0);
        let rest = subject_starts_from(t, n, needles);
        let all = subject_starts_from(t, i, needles);
        if s < line.len() && line[s] == '@' {
            assert(all == rest);
        } else if line_has_subject(line.skip(s), needles) {
            let k0 = choose|k: int| 0 <= k < needles.len() && subject_at(line.skip(s), #[trigger] needles[k]);
            assert(needles[k0].len() > 0);
            assert(s < line.len());
            assert(all == seq![i + s] + rest);
            assert forall|k: int| 0 <= k < all.len() implies i <= #[trigger] all[k] < t.len() by {
                if k > 0 {
                    assert(all[k] == rest[k - 1]);
                }
            }
            assert forall|k: int, m: int| 0 <= k < m < all.len() implies #[trigger] all[k] < #[trigger] all[m] by {
                assert(all[m] == rest[m - 1]);
                if k > 0 {
                    assert(all[k] == rest[k - 1]);
                }
            }
        } else {
            assert(all == rest);
        }
    }
}

/// Every spelling of an IRI is non-empty.
pub proof fn lemma_needles_nonempty(iri: Seq<char>, ns: Seq<(Seq<char>, Seq<char>)>)
    ensures
        forall|k: int| 0 <= k < needles_for(iri, ns).len() ==> (#[trigger] needles_for(iri, ns)[k]).len() > 0,
{
    let s0 = seq!["<"@ + iri + ">"@];
    let s1 = opt_push(s0, default_prefix_form(iri, ns));
    let s2 = opt_push(s1, curie_form(iri, ns));
    reveal_strlit("<");
    reveal_strlit(">");
    reveal_strlit(":");
    assert(("<"@ + iri + ">"@).len() > 0);
    assert forall|k: int| 0 <= k < s1.len() implies (#[trigger] s1[k]).len() > 0 by {
        if k > 0 {
            let d = default_prefix_form(iri, ns)->Some_0;
            assert(s1[k] == d);
        }
    }
    assert forall|k: int| 0 <= k < s2.len() implies (#[trigger] s2[k]).len() > 0 by {
        if k >= s1.len() {
            assert(s2[k] == curie_form(iri, ns)->Some_0);
        } else {
            assert(s2[k] == s1[k]);
        }
    }
}

/// Statement starts for `needles` in `t` (`all_subject_statements`, as character indices).
pub open spec fn subject_starts(t: Seq<char>, needles: Seq<Seq<char>>) -> Seq<int> {
    subject_starts_from(t, 0, needles)
}

/// `i` is where a line of `t` starts.
pub open spec fn line_start(t: Seq<char>, i: int) -> bool {
    0 <= i < t.len() && (i == 0 || t[i - 1] == '\n')
}

/// The line at `i` states one of `needles` as its subject: its first non-blank character is
/// not `@`, and a needle stands there followed by the line's end, whitespace, `;` or `.`.
pub open spec fn subject_line(t: Seq<char>, i: int, needles: Seq<Seq<char>>) -> bool {
    let line = line_at(t, i);
    let s = skip_ws(line, 0);
    !(s < line.len() && line[s] == '@') && line_has_subject(line.skip(s), needles)
}

/// Position of the first non-blank character of the line at `i`.
pub open spec fn first_nonblank(t: Seq<char>, i: int) -> int {
    i + skip_ws(line_at(t, i), 0)
}

proof fn lemma_subject_starts_lines(t: Seq<char>, i: int, needles: Seq<Seq<char>>, x: int)
    requires
        0 <= i,
        i == 0 || i > t.len() || t[i - 1] == '\n',
    ensures
        subject_starts_from(t, i, needles).contains(x) <==> exists|j: int|
            i <= j && line_start(t, j) && subject_line(t, j, needles) && x == #[trigger] first_nonblank(t, j),
    decreases t.len() + 1 - i,
{
    if i < t.len() {
        lemma_line_bounds(t, i);
        crate::text::lemma_next_char_bounds(t, i, '\n');
        let n = next_line_start(t, i);
        lemma_subject_starts_lines(t, n, needles, x);
        let line = line_at(t, i);
        let sk = skip_ws(line, 0);
        let rest = subject_starts_from(t, n, needles);
        let all = subject_starts_from(t, i, needles);
        assert(line_start(t, i));
        // no line starts strictly between `i` and `n`
        assert forall|j: int| i < j < n implies !line_start(t, j) by {
            if line_start(t, j) {
                assert(t[j - 1] != '\n');
            }
        }
        if subject_line(t, i, needles) {
            assert(all == seq![i + sk] + rest);
            if all.contains(x) {
                let q = choose|q: int| 0 <= q < all.len() && all[q] == x;
                if q > 0 {
                    assert(rest[q - 1] == x);
                    assert(rest.contains(x));
                } else {
                    assert(x == first_nonblank(t, i));
                }
            }
            if exists|j: int| i <= j && line_start(t, j) && subject_line(t, j, needles) && x == #[trigger] first_nonblank(t, j) {
                let j = choose|j: int| i <= j && line_start(t, j) && subject_line(t, j, needles) && x == #[trigger] first_nonblank(t, j);
                if j == i {
                    assert(all[0] == x);
                } else {
                    assert(n <= j);
                    let q = choose|q: int| 0 <= q < rest.len() && rest[q] == x;
                    assert(all[q + 1] == x);
                }
            }
        } else {
            assert(all == rest) by {
                let line2 = line_at(t, i);
                if sk < line2.len() && line2[sk] == '@' {
                } else {
                    assert(!line_has_subject(line2.skip(sk), needles));
                }
            }
            if exists|j: int| i <= j && line_start(t, j) && subject_line(t, j, needles) && x == #[trigger] first_nonblank(t, j) {
                let j = choose|j: int| i <= j && line_start(t, j) && subject_line(t, j, needles) && x == #[trigger] first_nonblank(t, j);
                assert(j != i);
                assert(n <= j);
            }
        }
    }
}

/// Law: the subject statement positions (`all_subject_statements`, in characters) are
/// exactly the first non-blank characters of the lines that state one of the IRI's spellings
/// (`needles_for`: `<iri>`, the default-prefix form, the longest-prefix CURIE) as their
/// subject, lines whose first non-blank character is `@` aside; they strictly increase.
pub proof fn law_subject_starts_are_subject_lines(t: Seq<char>, iri: Seq<char>, ns: Seq<(Seq<char>, Seq<char>)>)
    ensures
        forall|x: int|
            #[trigger] subject_starts(t, needles_for(iri, ns)).contains(x) <==> exists|j: int|
                line_start(t, j) && subject_line(t, j, needles_for(iri, ns)) && x == #[trigger] first_nonblank(t, j),
        forall|k: int, m: int|
            0 <= k < m < subject_starts(t, needles_for(iri, ns)).len() ==> #[trigger] subject_starts(
                t,
                needles_for(iri, ns),
            )[k] < #[trigger] subject_starts(t, needles_for(iri, ns))[m],
{
    let nd = needles_for(iri, ns);
    assert forall|x: int| #[trigger] subject_starts(t, nd).contains(x) <==> exists|j: int|
        line_start(t, j) && subject_line(t, j, nd) && x == #[trigger] first_nonblank(t, j) by {
        lemma_subject_starts_lines(t, 0, nd, x);
    }
    lemma_needles_nonempty(iri, ns);
    lemma_subject_starts_range(t, 0, nd);
}

pub open spec fn ints(v: Seq<usize>) -> Seq<int> {
    v.map_values(|x: usize| x as int)
}

pub fn subject_starts_exec(t: &[char], needles: &Vec<Vec<char>>) -> (r: Vec<usize>)
    ensures
        ints(r@) == subject_starts(t@, views(needles@)),
{
    let ghost nd = views(needles@);
    let mut out: Vec<usize> = Vec::new();
    let mut i: usize = 0;
    while i < t.len()
        invariant
            i <= t.len(),
            nd == views(needles@),
            ints(out@) + subject_starts_from(t@, i as int, nd) == subject_starts(t@, nd),
        decreases t.len() - i,
    {
        let (ce, nl) = line_bounds(t, i);
        let line = slice_chars(t, i, ce);
        assert(line@ == line_at(t@, i as int));
        let s = skip_ws_exec(line.as_slice(), 0);
        proof {
            lemma_skip_ws_bounds(line@, 0);
        }
        let next = if nl >= t.len() { t.len() } else { nl + 1 };
        proof {
            lemma_line_bounds(t@, i as int);
            if nl >= t.len() {
                assert(subject_starts_from(t@, nl + 1, nd) == Seq::<int>::empty());
                assert(subject_starts_from(t@, t.len() as int, nd) == Seq::<int>::empty());
            }
        }
        if s < line.len() && line[s] == '@' {
        } else {
            let trimmed = slice_chars(line.as_slice(), s, line.len());
            assert(trimmed@ == line@.skip(s as int));
            if line_has_subject_exec(trimmed.as_slice(), needles) {
                let ghost before = ints(out@);
                out.push(i + s);
                assert(ints(out@) =~= before + seq![(i + s) as int]);
                assert(ints(out@) + subject_starts_from(t@, next as int, nd) =~= before + (seq![
                    (i + s) as int,
                ] + subject_starts_from(t@, next as int, nd)));
            }
        }
        i = next;
    }
    assert(subject_starts_from(t@, i as int, nd) == Seq::<int>::empty());
    assert(ints(out@) + Seq::<int>::empty() =~= ints(out@));
    out
}

/// `(start, end)` character ranges of the statements starting at `starts` whose end is found.
pub open spec fn statement_ranges(t: Seq<char>, starts: Seq<int>) -> Seq<(int, int)>
    decreases starts.len(),
{
    if starts.len() == 0 {
        Seq::empty()
    } else {
        let rest = statement_ranges(t, starts.drop_first());
        match statement_end(t, starts[0]) {
            Some(e) => if e > starts[0] {
                seq![(starts[0], e)] + rest
            } else {
                rest
            },
            None => rest,
        }
    }
}

/// Statement ranges of every subject statement for `iri` (character indices).
pub open spec fn entity_ranges(t: Seq<char>, iri: Seq<char>, ns: Seq<(Seq<char>, Seq<char>)>) -> Seq<
    (int, int),
> {
    statement_ranges(t, subject_starts(t, needles_for(iri, ns)))
}

pub open spec fn pairs_int(v: Seq<(usize, usize)>) -> Seq<(int, int)> {
    v.map_values(|p: (usize, usize)| (p.0 as int, p.1 as int))
}


proof fn lemma_statement_ranges_from(t: Seq<char>, starts: Seq<int>)
    requires
        forall|k: int| 0 <= k < starts.len() ==> 0 <= #[trigger] starts[k],
    ensures
        statement_ranges(t, starts).len() <= starts.len(),
        forall|k: int|
            0 <= k < statement_ranges(t, starts).len() ==> starts.contains((#[trigger] statement_ranges(t, starts)[k]).0)
                && 0 <= statement_ranges(t, starts)[k].0 < statement_ranges(t, starts)[k].1 <= t.len()
                && t[statement_ranges(t, starts)[k].1 - 1] == '.',
    decreases starts.len(),
{
    if starts.len() > 0 {
        let tail = starts.drop_first();
        assert forall|k: int| 0 <= k < tail.len() implies 0 <= #[trigger] tail[k] by {
            assert(tail[k] == starts[k + 1]);
        }
        lemma_statement_ranges_from(t, tail);
        lemma_stmt_end_range(t, starts[0], Lex::Code, 0, 0);
        lemma_stmt_end_dot(t, starts[0], Lex::Code, 0, 0);
        let rest = statement_ranges(t, tail);
        let r = statement_ranges(t, starts);
        assert forall|x: int| tail.contains(x) implies starts.contains(x) by {
            let q = choose|q: int| 0 <= q < tail.len() && tail[q] == x;
            assert(starts[q + 1] == x);
        }
        if r.len() == rest.len() + 1 {
            assert(r[0].0 == starts[0]);
            assert forall|k: int| 1 <= k < r.len() implies r[k] == rest[k - 1] by {}
            assert(starts.contains(starts[0]));
        } else {
            assert(r == rest);
        }
    }
}

/// Law: every statement range of an entity (`all_entity_statement_ranges`, in characters)
/// starts at one of its subject statements, is non-empty, lies in the text and ends with its
/// terminating `.`; there are at most as many ranges as subject statements.
pub proof fn law_entity_ranges_follow_subject_statements(t: Seq<char>, iri: Seq<char>, ns: Seq<(Seq<char>, Seq<char>)>)
    ensures
        entity_ranges(t, iri, ns).len() <= subject_starts(t, needles_for(iri, ns)).len(),
        forall|k: int|
            0 <= k < entity_ranges(t, iri, ns).len() ==> subject_starts(t, needles_for(iri, ns)).contains(
                (#[trigger] entity_ranges(t, iri, ns)[k]).0,
            ) && 0 <= entity_ranges(t, iri, ns)[k].0 < entity_ranges(t, iri, ns)[k].1 <= t.len() && t[entity_ranges(
                t,
                iri,
                ns,
            )[k].1 - 1] == '.',
{
    let starts = subject_starts(t, needles_for(iri, ns));
    lemma_needles_nonempty(iri, ns);
    lemma_subject_starts_range(t, 0, needles_for(iri, ns));
    assert forall|k: int| 0 <= k < starts.len() implies 0 <= #[trigger] starts[k] by {}
    lemma_statement_ranges_from(t, starts);
}

proof fn lemma_statement_ranges_ordered(t: Seq<char>, starts: Seq<int>)
    requires
        forall|k: int| 0 <= k < starts.len() ==> 0 <= #[trigger] starts[k],
        forall|k: int, m: int| 0 <= k < m < starts.len() ==> #[trigger] starts[k] < #[trigger] starts[m],
    ensures
        forall|k: int, m: int|
            0 <= k < m < statement_ranges(t, starts).len() ==> (#[trigger] statement_ranges(t, starts)[k]).0
                < (#[trigger] statement_ranges(t, starts)[m]).0,
    decreases starts.len(),
{
    if starts.len() > 0 {
        let tail = starts.drop_first();
        assert forall|k: int| 0 <= k < tail.len() implies 0 <= #[trigger] tail[k] by {
            assert(tail[k] == starts[k + 1]);
        }
        assert forall|k: int, m: int| 0 <= k < m < tail.len() implies #[trigger] tail[k] < #[trigger] tail[m] by {
            assert(tail[k] == starts[k + 1] && tail[m] == starts[m + 1]);
        }
        lemma_statement_ranges_ordered(t, tail);
        lemma_statement_ranges_from(t, tail);
        let rest = statement_ranges(t, tail);
        let all = statement_ranges(t, starts);
        if all.len() == rest.len() + 1 {
            assert forall|k: int, m: int| 0 <= k < m < all.len() implies (#[trigger] all[k]).0 < (
            #[trigger] all[m]).0 by {
                assert(all[m] == rest[m - 1]);
                if k > 0 {
                    assert(all[k] == rest[k - 1]);
                } else {
                    let x = rest[m - 1].0;
                    assert(tail.contains(x));
                    let q = choose|q: int| 0 <= q < tail.len() && tail[q] == x;
                    assert(starts[q + 1] == x);
                    assert(all[0].0 == starts[0]);
                }
            }
        } else {
            assert(all == rest);
        }
    }
}

/// The UTF-8 byte just before the byte offset of a `.` that ends at character index `e` is
/// that `.`.
proof fn lemma_dot_byte(t: Seq<char>, e: int)
    requires
        1 <= e <= t.len(),
        t[e - 1] == '.',
    ensures
        byte_offset(t, e) == byte_offset(t, e - 1) + 1,
        vstd::utf8::encode_utf8(t)[byte_offset(t, e) - 1] == 46u8,
{
    lemma_byte_offset_step(t, e - 1);
    assert((46u32 & 0x7Fu32) as u8 == 46u8) by (bit_vector);
    assert(vstd::utf8::encode_scalar('.' as u32) =~= seq![46u8]);
    let a = t.take(e - 1);
    let b = t.skip(e - 1);
    assert(t =~= a + b);
    crate::text::lemma_encode_concat(a, b);
    assert(b[0] == '.');
    assert(vstd::utf8::encode_utf8(b)[0] == 46u8);
}

/// Law: the statement ranges of an entity (`all_entity_statement_ranges`) come in document
/// order, each starting where one of the entity's subject statements starts
/// (`all_subject_statements`, whose positions strictly increase); in UTF-8 bytes each range
/// is non-empty, lies in the text and ends with the byte of its terminating `.`.
pub proof fn law_entity_byte_ranges(t: Seq<char>, iri: Seq<char>, ns: Seq<(Seq<char>, Seq<char>)>)
    ensures
        forall|k: int, m: int|
            0 <= k < m < subject_starts(t, needles_for(iri, ns)).len() ==> #[trigger] subject_starts(
                t,
                needles_for(iri, ns),
            )[k] < #[trigger] subject_starts(t, needles_for(iri, ns))[m],
        forall|k: int, m: int|
            0 <= k < m < entity_ranges(t, iri, ns).len() ==> (#[trigger] entity_ranges(t, iri, ns)[k]).0 < (
            #[trigger] entity_ranges(t, iri, ns)[m]).0,
        forall|k: int|
            0 <= k < entity_ranges(t, iri, ns).len() ==> {
                let r = #[trigger] entity_ranges(t, iri, ns)[k];
                &&& byte_offset(t, r.0) < byte_offset(t, r.1) <= vstd::utf8::encode_utf8(t).len()
                &&& vstd::utf8::encode_utf8(t)[byte_offset(t, r.1) - 1] == 46u8
                &&& subject_starts(t, needles_for(iri, ns)).contains(r.0)
            },
{
    let starts = subject_starts(t, needles_for(iri, ns));
    lemma_needles_nonempty(iri, ns);
    lemma_subject_starts_range(t, 0, needles_for(iri, ns));
    assert forall|k: int| 0 <= k < starts.len() implies 0 <= #[trigger] starts[k] by {}
    law_entity_ranges_follow_subject_statements(t, iri, ns);
    lemma_statement_ranges_ordered(t, starts);
    let er = entity_ranges(t, iri, ns);
    assert forall|k: int| 0 <= k < er.len() implies {
        let r = #[trigger] er[k];
        &&& byte_offset(t, r.0) < byte_offset(t, r.1) <= vstd::utf8::encode_utf8(t).len()
        &&& vstd::utf8::encode_utf8(t)[byte_offset(t, r.1) - 1] == 46u8
        &&& starts.contains(r.0)
    } by {
        let r = er[k];
        crate::text::lemma_byte_offset_increases(t, r.0, r.1);
        lemma_byte_offset_bound(t, r.1);
        lemma_dot_byte(t, r.1);
    }
}

pub proof fn lemma_statement_ranges_valid(t: Seq<char>, starts: Seq<int>)
    requires
        forall|k: int| 0 <= k < starts.len() ==> 0 <= #[trigger] starts[k],
    ensures
        forall|k: int|
            0 <= k < statement_ranges(t, starts).len() ==> 0 <= (#[trigger] statement_ranges(
                t,
                starts,
            )[k]).0 < statement_ranges(t, starts)[k].1 <= t.len(),
    decreases starts.len(),
{
    if starts.len() > 0 {
        let tail = starts.drop_first();
        assert forall|k: int| 0 <= k < tail.len() implies 0 <= #[trigger] tail[k] by {
            assert(tail[k] == starts[k + 1]);
        }
        lemma_statement_ranges_valid(t, tail);
        lemma_stmt_end_range(t, starts[0], Lex::Code, 0, 0);
        let rest = statement_ranges(t, tail);
        let all = statement_ranges(t, starts);
        match statement_end(t, starts[0]) {
            Some(e) => {
                if e > starts[0] {
                    assert(all == seq![(starts[0], e)] + rest);
                    assert forall|k: int| 0 <= k < all.len() implies 0 <= (#[trigger] all[k]).0 < all[k].1 <= t.len() by {
                        if k > 0 {
                            assert(all[k] == rest[k - 1]);
                        }
                    }
                }
            },
            None => {},
        }
    }
}

pub fn statement_ranges_exec(t: &[char], starts: &Vec<usize>) -> (r: Vec<(usize, usize)>)
    ensures
        pairs_int(r@) == statement_ranges(t@, ints(starts@)),
        forall|k: int| 0 <= k < r@.len() ==> (#[trigger] r@[k]).0 < r@[k].1 <= t.len(),
{
    let ghost all = ints(starts@);
    let mut out: Vec<(usize, usize)> = Vec::new();
    let mut k: usize = 0;
    assert(all.skip(0) =~= all);
    while k < starts.len()
        invariant
            0 <= k <= starts@.len(),
            all == ints(starts@),
            pairs_int(out@) + statement_ranges(t@, all.skip(k as int)) == statement_ranges(t@, all),
            forall|j: int| 0 <= j < out@.len() ==> (#[trigger] out@[j]).0 < out@[j].1 <= t.len(),
        decreases starts@.len() - k,
    {
        let s = starts[k];
        assert(all.skip(k as int).drop_first() =~= all.skip(k + 1));
        assert(all.skip(k as int)[0] == s as int);
        match statement_end_exec(t, s) {
            Some(e) => {
                let ghost before = pairs_int(out@);
                out.push((s, e));
                assert(pairs_int(out@) =~= before + seq![(s as int, e as int)]);
                assert(pairs_int(out@) + statement_ranges(t@, all.skip(k + 1)) =~= before + (seq![
                    (s as int, e as int),
                ] + statement_ranges(t@, all.skip(k + 1))));
            },
            None => {},
        }
        k += 1;
    }
    assert(all.skip(k as int) =~= Seq::<int>::empty());
    assert(pairs_int(out@) + Seq::<(int, int)>::empty() =~= pairs_int(out@));
    out
}

/// Every statement range of `iri` in `t` (character indices), in document order.
pub fn entity_ranges_exec(t: &[char], iri: &[char], ns: &Namespaces) -> (r: Vec<(usize, usize)>)
    ensures
        pairs_int(r@) == entity_ranges(t@, iri@, ns@),
        forall|k: int| 0 <= k < r@.len() ==> (#[trigger] r@[k]).0 < r@[k].1 <= t.len(),
{
    let nd = needles_exec(iri, ns);
    let starts = subject_starts_exec(t, &nd);
    statement_ranges_exec(t, &starts)
}

/// First start whose statement declares a type.
pub open spec fn first_typed(t: Seq<char>, starts: Seq<int>) -> Option<int>
    decreases starts.len(),
{
    if starts.len() == 0 {
        None
    } else {
        match statement_end(t, starts[0]) {
            Some(e) => if 0 <= starts[0] && has_type_predicate(t.subrange(starts[0], e)) {
                Some(starts[0])
            } else {
                first_typed(t, starts.drop_first())
            },
            None => first_typed(t, starts.drop_first()),
        }
    }
}

/// The primary statement start: the first typed one, else the first one.
pub open spec fn primary_start(t: Seq<char>, starts: Seq<int>) -> Option<int> {
    match first_typed(t, starts) {
        Some(s) => Some(s),
        None => if starts.len() > 0 {
            Some(starts[0])
        } else {
            None
        },
    }
}

/// Range of the primary declaration statement of `iri` (character indices).
pub open spec fn primary_block(t: Seq<char>, iri: Seq<char>, ns: Seq<(Seq<char>, Seq<char>)>) -> Option<
    (int, int),
> {
    match primary_start(t, subject_starts(t, needles_for(iri, ns))) {
        Some(s) => match statement_end(t, s) {
            Some(e) => if e > s {
                Some((s, e))
            } else {
                None
            },
            None => None,
        },
        None => None,
    }
}

fn primary_start_exec(t: &[char], starts: &Vec<usize>) -> (r: Option<usize>)
    requires
        forall|k: int| 0 <= k < starts@.len() ==> #[trigger] starts@[k] < t@.len(),
    ensures
        match r {
            Some(s) => primary_start(t@, ints(starts@)) == Some(s as int) && s < t@.len(),
            None => primary_start(t@, ints(starts@)) is None,
        },
{
    let ghost all = ints(starts@);
    let mut k: usize = 0;
    assert(all.skip(0) =~= all);
    while k < starts.len()
        invariant
            0 <= k <= starts@.len(),
            all == ints(starts@),
            first_typed(t@, all) == first_typed(t@, all.skip(k as int)),
        decreases starts@.len() - k,
    {
        let s = starts[k];
        assert(all.skip(k as int).drop_first() =~= all.skip(k + 1));
        assert(all.skip(k as int)[0] == s as int);
        match statement_end_exec(t, s) {
            Some(e) => {
                let stmt = slice_chars(t, s, e);
                if has_type_predicate_exec(stmt.as_slice()) {
                    return Some(s);
                }
            },
            None => {},
        }
        k += 1;
    }
    assert(all.skip(k as int) =~= Seq::<int>::empty());
    if starts.len() > 0 {
        Some(starts[0])
    } else {
        None
    }
}

/// Primary declaration block of `iri` (character indices).
pub fn primary_block_exec(t: &[char], iri: &[char], ns: &Namespaces) -> (r: Option<(usize, usize)>)
    ensures
        match r {
            Some((s, e)) => primary_block(t@, iri@, ns@) == Some((s as int, e as int)) && s < e
                <= t.len(),
            None => primary_block(t@, iri@, ns@) is None,
        },
{
    let nd = needles_exec(iri, ns);
    let starts = subject_starts_exec(t, &nd);
    proof {
        lemma_needles_nonempty(iri@, ns@);
        lemma_subject_starts_range(t@, 0, views(nd@));
        assert forall|k: int| 0 <= k < starts@.len() implies #[trigger] starts@[k] < t@.len() by {
            assert(ints(starts@)[k] == starts@[k] as int);
        }
    }
    match primary_start_exec(t, &starts) {
        Some(s) => match statement_end_exec(t, s) {
            Some(e) => Some((s, e)),
            None => None,
        },
        None => None,
    }
}

/// A byte range of the source text.
#[derive(Debug, Clone, Copy, PartialEq, Eq, Structural)]
pub struct ByteRange {
    pub start: u64,
    pub end: u64,
}

/// Byte range of the characters `s..e` of `t`.
pub open spec fn byte_range(t: Seq<char>, s: int, e: int) -> ByteRange {
    ByteRange { start: byte_offset(t, s) as u64, end: byte_offset(t, e) as u64 }
}

/// Byte offsets of a text, checked to fit the `u64` offsets of `ByteRange`.
fn offsets_of(s: &str, t: &[char]) -> (r: Vec<u64>)
    requires
        t@ == s@,
    ensures
        r@.len() == t@.len() + 1,
        forall|i: int| 0 <= i <= t@.len() ==> r@[i] == byte_offset(t@, i),
{
    byte_offsets(s, t)
}

/// Byte positions of the statements whose subject is `iri` (`all_subject_statements`): each
/// range is empty and sits on the subject's first character.
pub fn all_subject_statements(
    source_text: &str,
    iri: &str,
    short_name: &str,
    namespaces: &Namespaces,
) -> (r: Vec<ByteRange>)
    ensures
        r@.len() == subject_starts(source_text@, needles_for(iri@, namespaces@)).len(),
        forall|k: int|
            0 <= k < r@.len() ==> #[trigger] r@[k] == byte_range(
                source_text@,
                subject_starts(source_text@, needles_for(iri@, namespaces@))[k],
                subject_starts(source_text@, needles_for(iri@, namespaces@))[k],
            ),
        forall|k: int, m: int| 0 <= k < m < r@.len() ==> (#[trigger] r@[k]).start < (#[trigger] r@[m]).start,
{
    let t = chars_of(source_text);
    let w = chars_of(iri);
    let offs = offsets_of(source_text, t.as_slice());
    let nd = needles_exec(w.as_slice(), namespaces);
    let starts = subject_starts_exec(t.as_slice(), &nd);
    proof {
        lemma_needles_nonempty(w@, namespaces@);
        lemma_subject_starts_range(t@, 0, views(nd@));
    }
    let ghost st = subject_starts(t@, views(nd@));
    let mut out: Vec<ByteRange> = Vec::new();
    let mut k: usize = 0;
    while k < starts.len()
        invariant
            0 <= k <= starts@.len(),
            st == ints(starts@),
            t@ == source_text@,
            offs@.len() == t@.len() + 1,
            forall|i: int| 0 <= i <= t@.len() ==> offs@[i] == byte_offset(t@, i),
            forall|j: int| 0 <= j < st.len() ==> 0 <= #[trigger] st[j] < t@.len(),
            out@.len() == k,
            forall|j: int| 0 <= j < k ==> #[trigger] out@[j] == byte_range(t@, st[j], st[j]),
        decreases starts@.len() - k,
    {
        assert(st[k as int] == starts@[k as int] as int);
        let b = offs[starts[k]];
        out.push(ByteRange { start: b, end: b });
        k += 1;
    }
    proof {
        assert forall|j: int, m: int| 0 <= j < m < out@.len() implies (#[trigger] out@[j]).start < (
        #[trigger] out@[m]).start by {
            assert(st[j] == starts@[j] as int && st[m] == starts@[m] as int);
            assert(offs@[starts@[j] as int] == byte_offset(t@, st[j]));
            assert(offs@[starts@[m] as int] == byte_offset(t@, st[m]));
            crate::text::lemma_byte_offset_increases(t@, st[j], st[m]);
        }
    }
    out
}

/// First statement position of `iri` (`find_subject_statement`).
pub fn find_subject_statement(
    source_text: &str,
    iri: &str,
    short_name: &str,
    namespaces: &Namespaces,
) -> (r: Option<ByteRange>)
    ensures
        match r {
            Some(b) => subject_starts(source_text@, needles_for(iri@, namespaces@)).len() > 0
                && b == byte_range(
                source_text@,
                subject_starts(source_text@, needles_for(iri@, namespaces@))[0],
                subject_starts(source_text@, needles_for(iri@, namespaces@))[0],
            ),
            None => subject_starts(source_text@, needles_for(iri@, namespaces@)).len() == 0,
        },
{
    let all = all_subject_statements(source_text, iri, short_name, namespaces);
    if all.len() > 0 {
        Some(all[0])
    } else {
        None
    }
}

/// Byte ranges of every statement whose subject is `iri` (`all_entity_statement_ranges`).
pub fn all_entity_statement_ranges(
    source_text: &str,
    iri: &str,
    short_name: &str,
    namespaces: &Namespaces,
) -> (r: Vec<ByteRange>)
    ensures
        r@.len() == entity_ranges(source_text@, iri@, namespaces@).len(),
        forall|k: int|
            0 <= k < r@.len() ==> #[trigger] r@[k] == byte_range(
                source_text@,
                entity_ranges(source_text@, iri@, namespaces@)[k].0,
                entity_ranges(source_text@, iri@, namespaces@)[k].1,
            ),
        forall|k: int|
            0 <= k < r@.len() ==> (#[trigger] r@[k]).start < r@[k].end <= vstd::utf8::encode_utf8(source_text@).len()
                && vstd::utf8::encode_utf8(source_text@)[r@[k].end - 1] == 46u8,
        forall|k: int, m: int| 0 <= k < m < r@.len() ==> (#[trigger] r@[k]).start < (#[trigger] r@[m]).start,
{
    let t = chars_of(source_text);
    let w = chars_of(iri);
    let offs = offsets_of(source_text, t.as_slice());
    let ranges = entity_ranges_exec(t.as_slice(), w.as_slice(), namespaces);
    let ghost er = entity_ranges(t@, w@, namespaces@);
    let mut out: Vec<ByteRange> = Vec::new();
    let mut k: usize = 0;
    while k < ranges.len()
        invariant
            0 <= k <= ranges@.len(),
            er == pairs_int(ranges@),
            t@ == source_text@,
            offs@.len() == t@.len() + 1,
            forall|i: int| 0 <= i <= t@.len() ==> offs@[i] == byte_offset(t@, i),
            forall|j: int| 0 <= j < ranges@.len() ==> (#[trigger] ranges@[j]).0 < ranges@[j].1 <= t.len(),
            out@.len() == k,
            forall|j: int| 0 <= j < k ==> #[trigger] out@[j] == byte_range(t@, er[j].0, er[j].1),
        decreases ranges@.len() - k,
    {
        let (s, e) = ranges[k];
        assert(er[k as int] == (s as int, e as int));
        out.push(ByteRange { start: offs[s], end: offs[e] });
        k += 1;
    }
    proof {
        law_entity_byte_ranges(t@, w@, namespaces@);
        assert forall|j: int| 0 <= j < out@.len() implies (#[trigger] out@[j]).start as int == byte_offset(
            t@,
            er[j].0,
        ) && out@[j].end as int == byte_offset(t@, er[j].1) by {
            assert(ranges@[j].0 as int == er[j].0 && ranges@[j].1 as int == er[j].1);
            assert(offs@[ranges@[j].0 as int] == byte_offset(t@, er[j].0));
            assert(offs@[ranges@[j].1 as int] == byte_offset(t@, er[j].1));
        }
        assert forall|j: int, m: int| 0 <= j < m < out@.len() implies (#[trigger] out@[j]).start < (
        #[trigger] out@[m]).start by {
            assert(er[j].0 < er[m].0);
            crate::text::lemma_byte_offset_increases(t@, er[j].0, er[m].0);
        }
    }
    out
}

/// Where something stands in a source text: line (from 1), column and byte positions, each
/// unknown when `None`.
#[derive(Debug, Clone, Copy, PartialEq, Eq)]
pub struct SourceLocation {
    pub line: Option<u64>,
    pub column: Option<u64>,
    pub start_byte: Option<u64>,
    pub end_byte: Option<u64>,
}

/// The location with nothing known.
pub open spec fn unknown_location() -> SourceLocation {
    SourceLocation { line: None, column: None, start_byte: None, end_byte: None }
}

impl Default for SourceLocation {
    fn default() -> (r: Self)
        ensures
            r == unknown_location(),
    {
        SourceLocation { line: None, column: None, start_byte: None, end_byte: None }
    }
}

/// Number of line breaks among the first `s` characters.
pub open spec fn newlines_before(t: Seq<char>, s: int) -> nat
    decreases s,
{
    if s <= 0 {
        0
    } else {
        newlines_before(t, s - 1) + if t[s - 1] == '\n' {
            1nat
        } else {
            0nat
        }
    }
}

/// Index of the first character of the line holding character `s`.
pub open spec fn line_start_of(t: Seq<char>, s: int) -> int
    decreases s,
{
    if s <= 0 {
        0
    } else if t[s - 1] == '\n' {
        s
    } else {
        line_start_of(t, s - 1)
    }
}

/// Location of the character `s` of `t`: its line, its byte column within that line, and its
/// byte offset.
pub open spec fn location_at(t: Seq<char>, s: int) -> SourceLocation {
    SourceLocation {
        line: Some((newlines_before(t, s) + 1) as u64),
        column: Some((byte_offset(t, s) - byte_offset(t, line_start_of(t, s))) as u64),
        start_byte: Some(byte_offset(t, s) as u64),
        end_byte: None,
    }
}

/// Location of the primary declaration of `iri` (`find_entity_block`), unknown when the text
/// has no statement about it.
pub open spec fn entity_block_location(t: Seq<char>, iri: Seq<char>, ns: Seq<(Seq<char>, Seq<char>)>) -> SourceLocation {
    match primary_start(t, subject_starts(t, needles_for(iri, ns))) {
        Some(s) => location_at(t, s),
        None => unknown_location(),
    }
}

proof fn lemma_byte_offset_mono(t: Seq<char>, a: int, b: int)
    requires
        0 <= a <= b <= t.len(),
    ensures
        byte_offset(t, a) <= byte_offset(t, b),
    decreases b - a,
{
    if a < b {
        lemma_byte_offset_step(t, b - 1);
        lemma_byte_offset_mono(t, a, b - 1);
    }
}

proof fn lemma_line_start_bounds(t: Seq<char>, s: int)
    requires
        0 <= s,
    ensures
        0 <= line_start_of(t, s) <= s,
        newlines_before(t, s) <= s,
    decreases s,
{
    if s > 0 {
        lemma_line_start_bounds(t, s - 1);
    }
}

/// Start of the primary declaration statement of `iri` (character index).
fn primary_start_of(t: &[char], iri: &[char], ns: &Namespaces) -> (r: Option<usize>)
    ensures
        match r {
            Some(s) => primary_start(t@, subject_starts(t@, needles_for(iri@, ns@))) == Some(s as int) && s
                < t.len(),
            None => primary_start(t@, subject_starts(t@, needles_for(iri@, ns@))) is None,
        },
{
    let nd = needles_exec(iri, ns);
    let starts = subject_starts_exec(t, &nd);
    proof {
        lemma_needles_nonempty(iri@, ns@);
        lemma_subject_starts_range(t@, 0, views(nd@));
        assert forall|k: int| 0 <= k < starts@.len() implies #[trigger] starts@[k] < t@.len() by {
            assert(ints(starts@)[k] == starts@[k] as int);
        }
    }
    primary_start_exec(t, &starts)
}

/// Location of the character `s` of `t`, whose byte offsets are `offs`.
fn location_exec(t: &[char], offs: &Vec<u64>, s: usize) -> (r: SourceLocation)
    requires
        s < t@.len(),
        offs@.len() == t@.len() + 1,
        forall|i: int| 0 <= i <= t@.len() ==> offs@[i] == byte_offset(t@, i),
    ensures
        r == location_at(t@, s as int),
{
    let mut lines: usize = 0;
    let mut ls: usize = 0;
    let mut i: usize = 0;
    while i < s
        invariant
            0 <= i <= s <= t@.len(),
            lines == newlines_before(t@, i as int),
            ls == line_start_of(t@, i as int),
        decreases s - i,
    {
        proof {
            lemma_line_start_bounds(t@, i as int);
        }
        if t[i] == '\n' {
            lines = lines + 1;
            ls = i + 1;
        }
        i += 1;
    }
    proof {
        lemma_line_start_bounds(t@, s as int);
        lemma_byte_offset_mono(t@, ls as int, s as int);
    }
    let n: usize = t.len();
    assert(lines < n);
    let next: usize = lines + 1;
    let line: u64 = next as u64;
    SourceLocation { line: Some(line), column: Some(offs[s] - offs[ls]), start_byte: Some(offs[s]), end_byte: None }
}

/// Location of the primary declaration of `iri` (`find_entity_block`): the line, column and
/// byte offset where its first typed statement, else its first statement, starts.
pub fn find_entity_block(source_text: &str, iri: &str, short_name: &str, namespaces: &Namespaces) -> (r:
    SourceLocation)
    ensures
        r == entity_block_location(source_text@, iri@, namespaces@),
{
    let t = chars_of(source_text);
    let w = chars_of(iri);
    match primary_start_of(t.as_slice(), w.as_slice(), namespaces) {
        Some(s) => {
            let offs = offsets_of(source_text, t.as_slice());
            location_exec(t.as_slice(), &offs, s)
        },
        None => SourceLocation::default(),
    }
}

/// Byte where an entity's block starts: the recorded start byte when there is one, else the
/// start of its primary declaration.
pub open spec fn block_start_byte(t: Seq<char>, iri: Seq<char>, ns: Seq<(Seq<char>, Seq<char>)>, start_byte: Option<u64>) -> Option<usize> {
    match start_byte {
        Some(b) => Some(b as usize),
        None => match primary_start(t, subject_starts(t, needles_for(iri, ns))) {
            Some(s) => Some(byte_offset(t, s) as usize),
            None => None,
        },
    }
}

/// Byte range of an entity's block (`entity_block_range`): from its start byte to the end of
/// the statement there, when that statement ends after it.
pub open spec fn entity_block_span(t: Seq<char>, iri: Seq<char>, declared: Seq<(Seq<char>, Seq<char>)>, start_byte: Option<u64>) -> Option<ByteRange> {
    match block_start_byte(t, iri, namespaces_for(t, declared), start_byte) {
        None => None,
        Some(b) => match statement_end(t, char_at_byte(t, b as int)) {
            Some(e) => if (byte_offset(t, e) as usize) > b {
                Some(ByteRange { start: b as u64, end: (byte_offset(t, e) as usize) as u64 })
            } else {
                None
            },
            None => None,
        },
    }
}

/// Byte range of the block of the entity `entity_iri` whose recorded start byte, if any, is
/// `start_byte` (`entity_block_range`), with the text's own prefixes added to
/// `declared_namespaces`.
pub fn entity_block_range(
    source_text: &str,
    entity_iri: &str,
    start_byte: Option<u64>,
    declared_namespaces: &Namespaces,
) -> (r: Option<ByteRange>)
    ensures
        r == entity_block_span(source_text@, entity_iri@, declared_namespaces@, start_byte),
{
    let ns = namespaces_for_text(source_text, declared_namespaces);
    let start: usize = match start_byte {
        Some(b) => b as usize,
        None => {
            let t = chars_of(source_text);
            let w = chars_of(entity_iri);
            match primary_start_of(t.as_slice(), w.as_slice(), &ns) {
                Some(c) => {
                    let offs = offsets_of(source_text, t.as_slice());
                    offs[c] as usize
                },
                None => {
                    return None;
                },
            }
        },
    };
    match statement_end_byte(source_text, start) {
        Some(end) => if end > start {
            Some(ByteRange { start: start as u64, end: end as u64 })
        } else {
            None
        },
        None => None,
    }
}

/// Byte range of the primary declaration block of `entity_iri` (`entity_primary_block_range`):
/// its first statement that declares a type, else its first statement.
pub fn entity_primary_block_range(
    source_text: &str,
    entity_iri: &str,
    namespaces: &Namespaces,
) -> (r: Option<ByteRange>)
    ensures
        match primary_block(source_text@, entity_iri@, namespaces@) {
            Some((s, e)) => r == Some(byte_range(source_text@, s, e)),
            None => r is None,
        },
{
    let t = chars_of(source_text);
    let w = chars_of(entity_iri);
    let offs = offsets_of(source_text, t.as_slice());
    match primary_block_exec(t.as_slice(), w.as_slice(), namespaces) {
        Some((s, e)) => Some(ByteRange { start: offs[s], end: offs[e] }),
        None => None,
    }
}

/// Whether byte `byte_offset` of `text` lies inside a `#` comment or a string literal.
pub fn is_in_comment_or_string(text: &str, byte_offset: usize) -> (r: bool)
    ensures
        r == in_comment_or_string(text@, char_at_byte(text@, byte_offset as int)),
{
    let t = chars_of(text);
    let c = char_at_byte_exec(t.as_slice(), byte_offset);
    in_comment_or_string_exec(t.as_slice(), c)
}

/// Byte offset just past the terminating `.` of the statement starting at byte `start`
/// (`statement_end_byte`).
pub fn statement_end_byte(source_text: &str, start: usize) -> (r: Option<usize>)
    ensures
        match statement_end(source_text@, char_at_byte(source_text@, start as int)) {
            Some(e) => r == Some(byte_offset(source_text@, e) as usize),
            None => r is None,
        },
{
    let t = chars_of(source_text);
    let c = char_at_byte_exec(t.as_slice(), start);
    let offs = offsets_of(source_text, t.as_slice());
    match statement_end_exec(t.as_slice(), c) {
        Some(e) => {
            let b = offs[e];
            proof {
                lemma_byte_offset_bound(t@, e as int);
            }
            assert(b as int <= source_text@.len() * 4 || true);
            Some(b as usize)
        },
        None => None,
    }
}

} // verus!
