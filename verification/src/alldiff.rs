//! `owl:AllDifferent` axioms: finding them, reading their members, rewriting and removing them.
use vstd::prelude::*;
use crate::error::{err_of, make_err, outcome, ErrKind, OwlError, Outcome};
use crate::lex::{
    bracket_end, bracket_end_exec, lemma_bracket_close_range, lemma_stmt_end_range, lex_step,
    lex_step_exec, paren_end, paren_end_exec, statement_end, statement_end_exec, Lex,
};
use crate::lists::{
    expand_term, expand_term_exec, lemma_member_end, lemma_next_aws, list_obj, list_obj_exec,
    list_tokens_from, member_end, next_aws, rm_pairs_exec_from, rm_pairs_from, same_members,
    terms_for, vviews,
};
use crate::namespaces::Namespaces;
use crate::span::{namespaces_for, namespaces_for_chars};
use crate::standalone::{add_block, add_block_exec, copy_chars};
use crate::text::{
    ascii_ws, chars_of, contains, contains_exec, find_from, find_from_spec, is_ascii_ws,
    lemma_find_from_none, lemma_next_char_bounds, lemma_skip_ws_bounds, next_char,
    next_char_exec, occurs, occurs_at, push_all, push_str, skip_ws, skip_ws_exec, slice_chars,
};

verus! {

/// A `[]` subject may start at `i`: at the start or after whitespace, `;`, `,` or `.`.
pub open spec fn blank_subject_at(t: Seq<char>, i: int) -> bool {
    occurs_at(t, i, "[]"@) && (i == 0 || is_ascii_ws(t[i - 1]) || t[i - 1] == ';' || t[i - 1] == ','
        || t[i - 1] == '.')
}

/// Ranges of `[] a owl:AllDifferent … .` statements and `[ … owl:AllDifferent … ] .` blocks
/// from `i` on (`all_different_statement_ranges`).
pub open spec fn ad_scan(t: Seq<char>, i: int, lex: Lex) -> Seq<(int, int)>
    decreases t.len() - i,
{
    if i < 0 || i >= t.len() {
        Seq::empty()
    } else if lex == Lex::Code && blank_subject_at(t, i) && statement_end(t, i) is Some {
        let end = statement_end(t, i)->Some_0;
        proof {
            lemma_stmt_end_range(t, i, Lex::Code, 0, 0);
        }
        (if contains(t.subrange(i, end), "owl:AllDifferent"@) {
            seq![(i, end)]
        } else {
            Seq::empty()
        }) + ad_scan(t, end, Lex::Code)
    } else if lex == Lex::Code && t[i] == '[' && bracket_end(t, i) is Some {
        let end = bracket_end(t, i)->Some_0;
        proof {
            lemma_bracket_close_range(t, i, Lex::Code, 0);
        }
        let a = skip_ws(t, end);
        (if contains(t.subrange(i, end), "owl:AllDifferent"@) {
            seq![
                (i, if a < t.len() && t[a] == '.' {
                    a + 1
                } else {
                    a
                }),
            ]
        } else {
            Seq::empty()
        }) + ad_scan(t, end, Lex::Code)
    } else {
        let (j, m) = lex_step(t, i, lex);
        ad_scan(t, j, m)
    }
}

pub proof fn lemma_ad_scan(t: Seq<char>, i: int, lex: Lex)
    requires
        0 <= i,
    ensures
        forall|k: int|
            0 <= k < ad_scan(t, i, lex).len() ==> i <= (#[trigger] ad_scan(t, i, lex)[k]).0 < ad_scan(
                t,
                i,
                lex,
            )[k].1 <= t.len(),
    decreases t.len() - i,
{
    if i < t.len() {
        let all = ad_scan(t, i, lex);
        if lex == Lex::Code && blank_subject_at(t, i) && statement_end(t, i) is Some {
            let end = statement_end(t, i)->Some_0;
            lemma_stmt_end_range(t, i, Lex::Code, 0, 0);
            lemma_ad_scan(t, end, Lex::Code);
            let head = if contains(t.subrange(i, end), "owl:AllDifferent"@) {
                seq![(i, end)]
            } else {
                Seq::empty()
            };
            let rest = ad_scan(t, end, Lex::Code);
            assert(i < end <= t.len());
            assert(all == head + rest);
            assert forall|k: int| 0 <= k < all.len() implies i <= (#[trigger] all[k]).0 < all[k].1 <= t.len() by {
                if k >= head.len() {
                    assert(all[k] == rest[k - head.len()]);
                } else {
                    assert(all[k] == head[k]);
                }
            }
        } else if lex == Lex::Code && t[i] == '[' && bracket_end(t, i) is Some {
            let end = bracket_end(t, i)->Some_0;
            lemma_bracket_close_range(t, i, Lex::Code, 0);
            lemma_skip_ws_bounds(t, end);
            lemma_ad_scan(t, end, Lex::Code);
            let a = skip_ws(t, end);
            let head = if contains(t.subrange(i, end), "owl:AllDifferent"@) {
                seq![
                    (i, if a < t.len() && t[a] == '.' {
                        a + 1
                    } else {
                        a
                    }),
                ]
            } else {
                Seq::empty()
            };
            let rest = ad_scan(t, end, Lex::Code);
            assert(i < end <= t.len());
            assert(end <= a <= t.len());
            assert(all == head + rest);
            assert forall|k: int| 0 <= k < all.len() implies i <= (#[trigger] all[k]).0 < all[k].1 <= t.len() by {
                if k >= head.len() {
                    assert(all[k] == rest[k - head.len()]);
                } else {
                    assert(all[k] == head[k]);
                }
            }
        } else {
            let (j, m) = lex_step(t, i, lex);
            crate::lex::lemma_lex_step_advances(t, i, lex);
            lemma_ad_scan(t, j, m);
            assert(all == ad_scan(t, j, m));
            assert forall|k: int| 0 <= k < all.len() implies i <= (#[trigger] all[k]).0 < all[k].1 <= t.len() by {
                assert(all[k] == ad_scan(t, j, m)[k]);
            }
        }
    }
}

pub open spec fn pairs_int(v: Seq<(usize, usize)>) -> Seq<(int, int)> {
    v.map_values(|p: (usize, usize)| (p.0 as int, p.1 as int))
}

pub fn ad_ranges_exec(t: &[char]) -> (r: Vec<(usize, usize)>)
    ensures
        pairs_int(r@) == ad_scan(t@, 0, Lex::Code),
        forall|k: int| 0 <= k < r@.len() ==> (#[trigger] r@[k]).0 < r@[k].1 <= t.len(),
{
    proof {
        lemma_ad_scan(t@, 0, Lex::Code);
    }
    let mut out: Vec<(usize, usize)> = Vec::new();
    let mut i: usize = 0;
    let mut lex = Lex::Code;
    let pair: [char; 2] = ['[', ']'];
    assert(pair@ == "[]"@) by {
        reveal_strlit("[]");
    }
    let tag = chars_of("owl:AllDifferent");
    while i < t.len()
        invariant
            i <= t.len(),
            pair@ == "[]"@,
            tag@ == "owl:AllDifferent"@,
            pairs_int(out@) + ad_scan(t@, i as int, lex) == ad_scan(t@, 0, Lex::Code),
            forall|k: int| 0 <= k < out@.len() ==> (#[trigger] out@[k]).0 < out@[k].1 <= t.len(),
        decreases t.len() - i,
    {
        let ghost before = pairs_int(out@);
        let mut handled = false;
        if lex == Lex::Code && occurs(t, i, &pair) && (i == 0 || ascii_ws(t[i - 1]) || t[i - 1]
            == ';' || t[i - 1] == ',' || t[i - 1] == '.') {
            match statement_end_exec(t, i) {
                Some(end) => {
                    let stmt = slice_chars(t, i, end);
                    if contains_exec(stmt.as_slice(), tag.as_slice()) {
                        out.push((i, end));
                        assert(pairs_int(out@) + ad_scan(t@, end as int, Lex::Code) =~= before + (seq![
                            (i as int, end as int),
                        ] + ad_scan(t@, end as int, Lex::Code)));
                    } else {
                        assert(before + (Seq::<(int, int)>::empty() + ad_scan(t@, end as int, Lex::Code))
                            =~= before + ad_scan(t@, end as int, Lex::Code));
                    }
                    i = end;
                    handled = true;
                },
                None => {},
            }
        }
        if !handled && lex == Lex::Code && t[i] == '[' {
            match bracket_end_exec(t, i) {
                Some(end) => {
                    let block = slice_chars(t, i, end);
                    let a = skip_ws_exec(t, end);
                    proof {
                        lemma_skip_ws_bounds(t@, end as int);
                    }
                    if contains_exec(block.as_slice(), tag.as_slice()) {
                        let re = if a < t.len() && t[a] == '.' {
                            a + 1
                        } else {
                            a
                        };
                        out.push((i, re));
                        assert(pairs_int(out@) + ad_scan(t@, end as int, Lex::Code) =~= before + (seq![
                            (i as int, re as int),
                        ] + ad_scan(t@, end as int, Lex::Code)));
                    } else {
                        assert(before + (Seq::<(int, int)>::empty() + ad_scan(t@, end as int, Lex::Code))
                            =~= before + ad_scan(t@, end as int, Lex::Code));
                    }
                    i = end;
                    handled = true;
                },
                None => {},
            }
        }
        if !handled {
            let (j, m) = lex_step_exec(t, i, lex);
            i = j;
            lex = m;
        } else {
            lex = Lex::Code;
        }
    }
    assert(pairs_int(out@) + Seq::<(int, int)>::empty() =~= pairs_int(out@));
    out
}

/// The members predicate of an AllDifferent block.
pub open spec fn ad_pred(b: Seq<char>) -> Option<Seq<char>> {
    if contains(b, "owl:distinctMembers"@) {
        Some("owl:distinctMembers"@)
    } else if contains(b, "owl:members"@) {
        Some("owl:members"@)
    } else {
        None
    }
}

/// Positions of the `(` and matching `)` of the members list.
pub open spec fn ad_list_span(b: Seq<char>) -> Option<(int, int)> {
    match ad_pred(b) {
        None => None,
        Some(p) => {
            let at = find_from_spec(b, 0, p);
            let k = next_char(b, at + p.len(), '(');
            if at < 0 || k >= b.len() {
                None
            } else {
                match paren_end(b, k) {
                    Some(e) => Some((k, e)),
                    None => None,
                }
            }
        },
    }
}

fn ad_pred_exec(b: &[char]) -> (r: Option<Vec<char>>)
    ensures
        match r {
            Some(v) => ad_pred(b@) == Some(v@),
            None => ad_pred(b@) is None,
        },
{
    let a = chars_of("owl:distinctMembers");
    let m = chars_of("owl:members");
    if contains_exec(b, a.as_slice()) {
        Some(a)
    } else if contains_exec(b, m.as_slice()) {
        Some(m)
    } else {
        None
    }
}

fn ad_list_span_exec(b: &[char]) -> (r: Option<(usize, usize)>)
    ensures
        match r {
            Some((k, e)) => ad_list_span(b@) == Some((k as int, e as int)) && k < e < b.len(),
            None => ad_list_span(b@) is None,
        },
{
    let blen = b.len();
    let p = match ad_pred_exec(b) {
        None => {
            return None;
        },
        Some(p) => p,
    };
    proof {
        lemma_find_from_none(b@, 0, p@);
    }
    let at = match find_from(b, 0, p.as_slice()) {
        None => {
            return None;
        },
        Some(at) => at,
    };
    let k = next_char_exec(b, at + p.len(), '(');
    proof {
        lemma_next_char_bounds(b@, at + p@.len(), '(');
    }
    if k >= b.len() {
        return None;
    }
    proof {
        crate::lex::lemma_paren_close_range(b@, k + 1, Lex::Code, 1);
        assert(paren_end(b@, k as int) == crate::lex::paren_close_from(b@, k + 1, Lex::Code, 1));
    }
    match paren_end_exec(b, k) {
        Some(e) => Some((k, e)),
        None => None,
    }
}

/// Members of an AllDifferent block (`parse_all_different_members`): `Ok(None)` when the block
/// has no members list, an error for a member that cannot be expanded.
pub open spec fn ad_members(b: Seq<char>, ns: Seq<(Seq<char>, Seq<char>)>) -> Result<
    Option<Seq<Seq<char>>>,
    (ErrKind, Seq<char>),
> {
    match ad_list_span(b) {
        None => Ok(None),
        Some((k, e)) => match expand_each(list_tokens_from(b.subrange(k + 1, e), 0), ns) {
            Err(err) => Err(err),
            Ok(ms) => Ok(Some(ms)),
        },
    }
}

/// Every token expanded to an IRI, or the error for the first that cannot be.
pub open spec fn expand_each(ts: Seq<Seq<char>>, ns: Seq<(Seq<char>, Seq<char>)>) -> Result<
    Seq<Seq<char>>,
    (ErrKind, Seq<char>),
>
    decreases ts.len(),
{
    if ts.len() == 0 {
        Ok(Seq::empty())
    } else {
        match expand_term(ts[0], ns) {
            None => Err(
                (
                    ErrKind::PatchInvalid,
                    "AllDifferent member cannot be expanded (undeclared prefix?): "@ + ts[0],
                ),
            ),
            Some(x) => match expand_each(ts.drop_first(), ns) {
                Err(e) => Err(e),
                Ok(rest) => Ok(seq![x] + rest),
            },
        }
    }
}

fn ad_members_exec(b: &[char], ns: &Namespaces) -> (r: Result<Option<Vec<Vec<char>>>, OwlError>)
    ensures
        match ad_members(b@, ns@) {
            Ok(Some(ms)) => r matches Ok(Some(v)) && vviews(v@) == ms,
            Ok(None) => r matches Ok(None),
            Err(e) => r matches Err(x) && err_of(x) == e,
        },
{
    let (k, e) = match ad_list_span_exec(b) {
        None => {
            return Ok(None);
        },
        Some(x) => x,
    };
    let inner = slice_chars(b, k + 1, e);
    let s = inner.as_slice();
    let mut out: Vec<Vec<char>> = Vec::new();
    let mut i: usize = 0;
    while i < s.len()
        invariant
            i <= s@.len(),
            s@ == inner@,
            inner@ == b@.subrange(k + 1, e as int),
            ad_list_span(b@) == Some((k as int, e as int)),
            expand_each(list_tokens_from(s@, 0), ns@) == match expand_each(list_tokens_from(s@, i as int), ns@) {
                Ok(rest) => Ok(vviews(out@) + rest),
                Err(err) => Err(err),
            },
        decreases s@.len() - i,
    {
        if ascii_ws(s[i]) {
            i += 1;
        } else {
            proof {
                lemma_member_end(s@, i as int);
                lemma_next_char_bounds(s@, i + 1, '>');
                lemma_next_aws(s@, i as int);
            }
            let end = if s[i] == '<' {
                let g = next_char_exec(s, i + 1, '>');
                if g < s.len() {
                    g + 1
                } else {
                    s.len()
                }
            } else {
                let mut q = i;
                while q < s.len() && !ascii_ws(s[q])
                    invariant
                        i <= q <= s@.len(),
                        next_aws(s@, i as int) == next_aws(s@, q as int),
                    decreases s@.len() - q,
                {
                    q += 1;
                }
                q
            };
            assert(end as int == member_end(s@, i as int));
            let tok = slice_chars(s, i, end);
            assert(list_tokens_from(s@, i as int) == seq![tok@] + list_tokens_from(s@, end as int));
            assert((seq![tok@] + list_tokens_from(s@, end as int))[0] == tok@);
            assert((seq![tok@] + list_tokens_from(s@, end as int)).drop_first() =~= list_tokens_from(
                s@,
                end as int,
            ));
            match expand_term_exec(tok.as_slice(), ns) {
                None => {
                    let mut d = chars_of("AllDifferent member cannot be expanded (undeclared prefix?): ");
                    push_all(&mut d, tok.as_slice());
                    return Err(make_err(ErrKind::PatchInvalid, d.as_slice()));
                },
                Some(x) => {
                    let ghost before = vviews(out@);
                    out.push(x);
                    assert(vviews(out@) =~= before + seq![x@]);
                    assert forall|rest: Seq<Seq<char>>| #[trigger] (before + (seq![x@] + rest)) =~= vviews(out@) + rest by {}
                },
            }
            i = end;
        }
    }
    assert(vviews(out@) + Seq::<Seq<char>>::empty() =~= vviews(out@));
    Ok(Some(out))
}

/// Some AllDifferent axiom among `ranges` has exactly the members `inds`
/// (`all_different_block_covers` with `exact`); member errors propagate.
pub open spec fn covers_from(
    t: Seq<char>,
    ranges: Seq<(int, int)>,
    inds: Seq<Seq<char>>,
    ns: Seq<(Seq<char>, Seq<char>)>,
) -> Result<bool, (ErrKind, Seq<char>)>
    decreases ranges.len(),
{
    if ranges.len() == 0 {
        Ok(false)
    } else {
        match ad_members(t.subrange(ranges[0].0, ranges[0].1), ns) {
            Err(e) => Err(e),
            Ok(Some(ms)) => if same_members(ms, inds) {
                Ok(true)
            } else {
                covers_from(t, ranges.drop_first(), inds, ns)
            },
            Ok(None) => covers_from(t, ranges.drop_first(), inds, ns),
        }
    }
}

/// AllDifferent block for a members list.
pub open spec fn ad_block(list: Seq<char>) -> Seq<char> {
    "[] a owl:AllDifferent ;\n    owl:distinctMembers "@ + list + " .\n"@
}

/// Add an `owl:AllDifferent` axiom (`add_different_individuals`) unless one with the same
/// members, or the same block text, is present.
pub open spec fn add_different_spec(t: Seq<char>, inds: Seq<Seq<char>>, ns: Seq<(Seq<char>, Seq<char>)>) -> Outcome {
    if inds.len() < 2 {
        Err((ErrKind::PatchInvalid, "owl:AllDifferent requires at least two individuals"@))
    } else {
        let ns2 = namespaces_for(t, ns);
        match terms_for(inds, ns2) {
            Err(e) => Err(e),
            Ok(ts) => match covers_from(t, ad_scan(t, 0, Lex::Code), inds, ns2) {
                Err(e) => Err(e),
                Ok(true) => Ok(t),
                Ok(false) => Ok(add_block(t, ad_block(list_obj(ts)))),
            },
        }
    }
}

fn covers_exec(t: &[char], ranges: &Vec<(usize, usize)>, inds: &Vec<Vec<char>>, ns: &Namespaces) -> (r: Result<bool, OwlError>)
    requires
        forall|k: int| 0 <= k < ranges@.len() ==> (#[trigger] ranges@[k]).0 < ranges@[k].1 <= t.len(),
    ensures
        match covers_from(t@, pairs_int(ranges@), vviews(inds@), ns@) {
            Ok(b) => r == Ok::<bool, OwlError>(b),
            Err(e) => r matches Err(x) && err_of(x) == e,
        },
{
    let ghost rs = pairs_int(ranges@);
    let mut k: usize = 0;
    assert(rs.skip(0) =~= rs);
    while k < ranges.len()
        invariant
            k <= ranges@.len(),
            rs == pairs_int(ranges@),
            forall|j: int| 0 <= j < ranges@.len() ==> (#[trigger] ranges@[j]).0 < ranges@[j].1 <= t.len(),
            covers_from(t@, rs, vviews(inds@), ns@) == covers_from(t@, rs.skip(k as int), vviews(inds@), ns@),
        decreases ranges@.len() - k,
    {
        let (s, e) = ranges[k];
        assert(rs.skip(k as int)[0] == (s as int, e as int));
        assert(rs.skip(k as int).drop_first() =~= rs.skip(k + 1));
        let block = slice_chars(t, s, e);
        match ad_members_exec(block.as_slice(), ns) {
            Err(x) => {
                return Err(x);
            },
            Ok(Some(ms)) => {
                if crate::lists::same_members_pub(&ms, inds) {
                    return Ok(true);
                }
            },
            Ok(None) => {},
        }
        k += 1;
    }
    assert(rs.skip(k as int) =~= Seq::<(int, int)>::empty());
    Ok(false)
}

pub fn add_different_exec(t: &[char], inds: &Vec<Vec<char>>, ns: &Namespaces) -> (r: Result<Vec<char>, OwlError>)
    ensures
        outcome(r) == add_different_spec(t@, vviews(inds@), ns@),
{
    if inds.len() < 2 {
        let d = chars_of("owl:AllDifferent requires at least two individuals");
        return Err(make_err(ErrKind::PatchInvalid, d.as_slice()));
    }
    let ns2 = namespaces_for_chars(t, ns);
    let list = match list_obj_exec(inds, &ns2) {
        Err(e) => {
            return Err(e);
        },
        Ok(l) => l,
    };
    let ranges = ad_ranges_exec(t);
    match covers_exec(t, &ranges, inds, &ns2) {
        Err(e) => Err(e),
        Ok(true) => Ok(copy_chars(t)),
        Ok(false) => {
            let mut b = chars_of("[] a owl:AllDifferent ;\n    owl:distinctMembers ");
            push_all(&mut b, list.as_slice());
            push_str(&mut b, " .\n");
            Ok(add_block_exec(t, b.as_slice()))
        },
    }
}

/// Members of `ms` not in `want`, in order.
pub open spec fn keep_not_in(ms: Seq<Seq<char>>, want: Seq<Seq<char>>) -> Seq<Seq<char>>
    decreases ms.len(),
{
    if ms.len() == 0 {
        Seq::empty()
    } else {
        (if want.contains(ms[0]) {
            Seq::empty()
        } else {
            seq![ms[0]]
        }) + keep_not_in(ms.drop_first(), want)
    }
}

/// Rewrite (or drop, when fewer than two members would remain) the first AllDifferent axiom
/// among `ranges` that lists every one of `inds` (`remove_or_rewrite_one_all_different`).
pub open spec fn rewrite_one_from(
    t: Seq<char>,
    ranges: Seq<(int, int)>,
    inds: Seq<Seq<char>>,
    ns: Seq<(Seq<char>, Seq<char>)>,
) -> Result<Option<Seq<char>>, (ErrKind, Seq<char>)>
    decreases ranges.len(),
{
    if ranges.len() == 0 {
        Ok(None)
    } else {
        let (s, e) = ranges[0];
        let block = t.subrange(s, e);
        match ad_members(block, ns) {
            Err(err) => Err(err),
            Ok(None) => rewrite_one_from(t, ranges.drop_first(), inds, ns),
            Ok(Some(ms)) => if !(forall|i: int| 0 <= i < inds.len() ==> ms.contains(#[trigger] inds[i])) {
                rewrite_one_from(t, ranges.drop_first(), inds, ns)
            } else {
                let rem = keep_not_in(ms, inds);
                if rem.len() < 2 {
                    let rs = if s > 0 && t[s - 1] == '\n' {
                        s - 1
                    } else {
                        s
                    };
                    let re = if e < t.len() && t[e] == '\n' {
                        e + 1
                    } else {
                        e
                    };
                    Ok(Some(t.take(rs) + t.skip(re)))
                } else {
                    match terms_for(rem, ns) {
                        Err(err) => Err(err),
                        Ok(ts) => match ad_list_span(block) {
                            None => Err((ErrKind::PatchInvalid, "failed to rewrite AllDifferent members"@)),
                            Some((k, q)) => Ok(
                                Some(
                                    t.take(s) + (block.take(k) + list_obj(ts) + block.skip(q + 1))
                                        + t.skip(e),
                                ),
                            ),
                        },
                    }
                }
            },
        }
    }
}

fn keep_not_in_exec(ms: &Vec<Vec<char>>, want: &Vec<Vec<char>>) -> (r: Vec<Vec<char>>)
    ensures
        vviews(r@) == keep_not_in(vviews(ms@), vviews(want@)),
{
    let ghost mv = vviews(ms@);
    let ghost wv = vviews(want@);
    let mut out: Vec<Vec<char>> = Vec::new();
    let mut k: usize = 0;
    assert(mv.skip(0) =~= mv);
    while k < ms.len()
        invariant
            k <= ms@.len(),
            mv == vviews(ms@),
            wv == vviews(want@),
            vviews(out@) + keep_not_in(mv.skip(k as int), wv) == keep_not_in(mv, wv),
        decreases ms@.len() - k,
    {
        assert(mv.skip(k as int)[0] == ms@[k as int]@);
        assert(mv.skip(k as int).drop_first() =~= mv.skip(k + 1));
        let ghost before = vviews(out@);
        if !crate::lists::contains_pub(want, ms[k].as_slice()) {
            out.push(copy_chars(ms[k].as_slice()));
            assert(vviews(out@) =~= before + seq![ms@[k as int]@]);
            assert(vviews(out@) + keep_not_in(mv.skip(k + 1), wv) =~= before + (seq![ms@[k as int]@]
                + keep_not_in(mv.skip(k + 1), wv)));
        } else {
            assert(before + (Seq::<Seq<char>>::empty() + keep_not_in(mv.skip(k + 1), wv)) =~= before
                + keep_not_in(mv.skip(k + 1), wv));
        }
        k += 1;
    }
    assert(mv.skip(k as int) =~= Seq::<Seq<char>>::empty());
    assert(vviews(out@) + Seq::<Seq<char>>::empty() =~= vviews(out@));
    out
}

fn rewrite_one_exec(t: &[char], ranges: &Vec<(usize, usize)>, inds: &Vec<Vec<char>>, ns: &Namespaces) -> (r: Result<
    Option<Vec<char>>,
    OwlError,
>)
    requires
        forall|k: int| 0 <= k < ranges@.len() ==> (#[trigger] ranges@[k]).0 < ranges@[k].1 <= t.len(),
    ensures
        match rewrite_one_from(t@, pairs_int(ranges@), vviews(inds@), ns@) {
            Ok(Some(n)) => r matches Ok(Some(v)) && v@ == n,
            Ok(None) => r matches Ok(None),
            Err(e) => r matches Err(x) && err_of(x) == e,
        },
{
    let ghost rs = pairs_int(ranges@);
    let ghost iv = vviews(inds@);
    let mut k: usize = 0;
    assert(rs.skip(0) =~= rs);
    while k < ranges.len()
        invariant
            k <= ranges@.len(),
            rs == pairs_int(ranges@),
            iv == vviews(inds@),
            forall|j: int| 0 <= j < ranges@.len() ==> (#[trigger] ranges@[j]).0 < ranges@[j].1 <= t.len(),
            rewrite_one_from(t@, rs, iv, ns@) == rewrite_one_from(t@, rs.skip(k as int), iv, ns@),
        decreases ranges@.len() - k,
    {
        let (s, e) = ranges[k];
        assert(rs.skip(k as int)[0] == (s as int, e as int));
        assert(rs.skip(k as int).drop_first() =~= rs.skip(k + 1));
        let block = slice_chars(t, s, e);
        match ad_members_exec(block.as_slice(), ns) {
            Err(x) => {
                return Err(x);
            },
            Ok(None) => {},
            Ok(Some(ms)) => {
                if crate::lists::all_in_pub(inds, &ms) {
                    let rem = keep_not_in_exec(&ms, inds);
                    if rem.len() < 2 {
                        let rs0 = if s > 0 && t[s - 1] == '\n' {
                            s - 1
                        } else {
                            s
                        };
                        let re0 = if e < t.len() && t[e] == '\n' {
                            e + 1
                        } else {
                            e
                        };
                        let mut out = slice_chars(t, 0, rs0);
                        let tail = slice_chars(t, re0, t.len());
                        push_all(&mut out, tail.as_slice());
                        assert(out@ =~= t@.take(rs0 as int) + t@.skip(re0 as int));
                        return Ok(Some(out));
                    }
                    let list = match list_obj_exec(&rem, ns) {
                        Err(x) => {
                            return Err(x);
                        },
                        Ok(l) => l,
                    };
                    match ad_list_span_exec(block.as_slice()) {
                        None => {
                            let d = chars_of("failed to rewrite AllDifferent members");
                            return Err(make_err(ErrKind::PatchInvalid, d.as_slice()));
                        },
                        Some((a, q)) => {
                            let mut out = slice_chars(t, 0, s);
                            let head = slice_chars(block.as_slice(), 0, a);
                            push_all(&mut out, head.as_slice());
                            push_all(&mut out, list.as_slice());
                            let rest = slice_chars(block.as_slice(), q + 1, block.len());
                            push_all(&mut out, rest.as_slice());
                            let tail = slice_chars(t, e, t.len());
                            push_all(&mut out, tail.as_slice());
                            assert(out@ =~= t@.take(s as int) + (block@.take(a as int) + list@ + block@.skip(
                                q + 1,
                            )) + t@.skip(e as int));
                            return Ok(Some(out));
                        },
                    }
                }
            },
        }
        k += 1;
    }
    assert(rs.skip(k as int) =~= Seq::<(int, int)>::empty());
    Ok(None)
}

/// Rounds of `rewrite_one_from`, recomputing the AllDifferent ranges, until none applies
/// (at most `fuel`): the text and whether anything changed.
pub open spec fn rewrite_rounds(
    t: Seq<char>,
    ch: bool,
    inds: Seq<Seq<char>>,
    ns: Seq<(Seq<char>, Seq<char>)>,
    fuel: nat,
) -> Result<(Seq<char>, bool), (ErrKind, Seq<char>)>
    decreases fuel,
{
    if fuel == 0 {
        Ok((t, ch))
    } else {
        match rewrite_one_from(t, ad_scan(t, 0, Lex::Code), inds, ns) {
            Err(e) => Err(e),
            Ok(None) => Ok((t, ch)),
            Ok(Some(n)) => rewrite_rounds(n, true, inds, ns, (fuel - 1) as nat),
        }
    }
}

/// Remove different-individuals axioms (`remove_different_individuals`): rewrite or drop the
/// AllDifferent axioms listing every one of `inds`, then remove pairwise `owl:differentFrom`
/// in both directions; an error when nothing changed.
pub open spec fn remove_different_spec(t: Seq<char>, inds: Seq<Seq<char>>, ns: Seq<(Seq<char>, Seq<char>)>) -> Outcome {
    if inds.len() < 2 {
        Err((ErrKind::PatchInvalid, "remove_different_individuals requires at least two individuals"@))
    } else {
        let ns2 = namespaces_for(t, ns);
        match rewrite_rounds(t, false, inds, ns2, (t.len() + 1) as nat) {
            Err(e) => Err(e),
            Ok((t1, c1)) => {
                let (t2, c2) = rm_pairs_from(t1, c1, inds, "owl:differentFrom"@, ns2, 0);
                if c2 {
                    Ok(t2)
                } else {
                    Err(
                        (
                            ErrKind::ManchesterInvalid,
                            "no matching owl:AllDifferent / owl:differentFrom axiom"@,
                        ),
                    )
                }
            },
        }
    }
}

pub fn remove_different_exec(t: &[char], inds: &Vec<Vec<char>>, ns: &Namespaces) -> (r: Result<Vec<char>, OwlError>)
    ensures
        outcome(r) == remove_different_spec(t@, vviews(inds@), ns@),
{
    if inds.len() < 2 {
        let d = chars_of("remove_different_individuals requires at least two individuals");
        return Err(make_err(ErrKind::PatchInvalid, d.as_slice()));
    }
    let ns2 = namespaces_for_chars(t, ns);
    let ghost iv = vviews(inds@);
    let mut cur = copy_chars(t);
    let mut changed = false;
    let mut fuel: usize = t.len();
    let mut done = false;
    while !done
        invariant
            iv == vviews(inds@),
            iv.len() >= 2,
            ns2@ == namespaces_for(t@, ns@),
            rewrite_rounds(t@, false, iv, ns2@, (t@.len() + 1) as nat) == if done {
                Ok((cur@, changed))
            } else {
                rewrite_rounds(cur@, changed, iv, ns2@, (fuel + 1) as nat)
            },
        decreases fuel + (if done { 0int } else { 1int }),
    {
        let ranges = ad_ranges_exec(cur.as_slice());
        match rewrite_one_exec(cur.as_slice(), &ranges, inds, &ns2) {
            Err(x) => {
                assert(rewrite_one_from(cur@, ad_scan(cur@, 0, Lex::Code), iv, ns2@) == Err::<
                    Option<Seq<char>>,
                    (ErrKind, Seq<char>),
                >(err_of(x)));
                assert(rewrite_rounds(cur@, changed, iv, ns2@, (fuel + 1) as nat) == Err::<
                    (Seq<char>, bool),
                    (ErrKind, Seq<char>),
                >(err_of(x)));
                return Err(x);
            },
            Ok(None) => {
                done = true;
            },
            Ok(Some(n)) => {
                if fuel == 0 {
                    assert(rewrite_rounds(n@, true, iv, ns2@, 0) == Ok::<(Seq<char>, bool), (ErrKind, Seq<char>)>((n@, true)));
                    cur = n;
                    changed = true;
                    done = true;
                } else {
                    cur = n;
                    changed = true;
                    fuel -= 1;
                }
            },
        }
    }
    let p = chars_of("owl:differentFrom");
    let (t2, c2) = rm_pairs_exec_from(cur.as_slice(), changed, inds, p.as_slice(), &ns2);
    if c2 {
        Ok(t2)
    } else {
        let d = chars_of("no matching owl:AllDifferent / owl:differentFrom axiom");
        Err(make_err(ErrKind::ManchesterInvalid, d.as_slice()))
    }
}

} // verus!
