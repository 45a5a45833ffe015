//! Hyperlinks recognised in annotation text (DOI, PubMed, ORCID, OMIM, Orphanet, ISBN,
//! Wikipedia), and Markdown rendering of annotation text with those links.
use vstd::prelude::*;
use crate::text::{
    byte_offset, char_at_byte, char_at_byte_exec, chars_of, lemma_byte_offset_bound,
    lemma_byte_offset_step, push_str, replace_all, replace_exec, slice_chars, string_from,
};

verus! {

/// A hyperlink found inside annotation text; `start` and `end` are byte offsets.
#[derive(Debug, Clone, PartialEq, Eq)]
pub struct AnnotationLink {
    pub kind: String,
    pub matched_text: String,
    pub url: String,
    pub start: usize,
    pub end: usize,
}

/// One match of a pattern: the byte span of the whole match and of capture groups 1 and 2,
/// where they took part.
pub type Capture = (usize, usize, Option<(usize, usize)>, Option<(usize, usize)>);

/// Every successive non-overlapping match of the regular expression `pattern` in `text`
/// (`Regex::captures_iter`), or `None` when `pattern` does not compile.
pub uninterp spec fn regex_captures(pattern: Seq<char>, text: Seq<char>) -> Option<Seq<Capture>>;

/// Byte offset `x` lies between two characters of `t`, or at either end of it.
pub open spec fn on_char_boundary(t: Seq<char>, x: int) -> bool {
    exists|a: int| 0 <= a <= t.len() && #[trigger] byte_offset(t, a) == x
}

/// The whole match `c` spans bytes `c.0 .. c.1` of `t`, in order and on character boundaries.
pub open spec fn capture_in(t: Seq<char>, c: Capture) -> bool {
    c.0 <= c.1 && on_char_boundary(t, c.0 as int) && on_char_boundary(t, c.1 as int)
}

/// Compiles `pattern` with `regex::Regex::new` and lists the spans of `captures_iter` on
/// `text` (the whole match and groups 1 and 2). Claimed: the result is a function of the pattern and
/// the text, named `regex_captures`; and, as `regex::Match::start` and `end` document, each
/// whole match starts at or before its end, both offsets falling on character boundaries of
/// the text. Which spans match is not stated.
#[verifier::external_body]
pub(crate) fn find_captures(pattern: &str, text: &str) -> (r: Option<Vec<Capture>>)
    ensures
        match r {
            Some(v) => regex_captures(pattern@, text@) == Some(v@) && forall|k: int|
                0 <= k < v@.len() ==> capture_in(text@, #[trigger] v@[k]),
            None => regex_captures(pattern@, text@) is None,
        },
{
    let span = |g: regex::Match| (g.start(), g.end());
    match regex::Regex::new(pattern) {
        Err(_) => None,
        Ok(re) => Some(
            re.captures_iter(text).map(
                |c| (c.get_match().start(), c.get_match().end(), c.get(1).map(span), c.get(2).map(span)),
            ).collect(),
        ),
    }
}

/// Name, pattern and URL template of link kind `i`, in the order they are tried.
pub open spec fn extractor(i: int) -> (Seq<char>, Seq<char>, Seq<char>) {
    if i == 0 {
        ("DOI"@, "(?i)DOI:\\s*([^\\s]+)"@, "https://doi.org/$1"@)
    } else if i == 1 {
        ("PubMedId"@, "(?i)PMID:\\s*(\\d+)"@, "http://www.ncbi.nlm.nih.gov/pubmed/$1"@)
    } else if i == 2 {
        ("ORCID"@, "(?i)ORCID:\\s*([^\\s]+)"@, "https://orcid.org/$1"@)
    } else if i == 3 {
        ("OMIMPS"@, "(?i)OMIMPS:\\s*(\\d+)"@, "https://www.omim.org/phenotypicSeries/$1"@)
    } else if i == 4 {
        ("OMIM"@, "(?i)OMIM:\\s*(\\d+)"@, "https://omim.org/entry/$1"@)
    } else if i == 5 {
        ("Orphanet"@, "(?i)Orphanet:\\s*(\\d+)"@, "https://www.orpha.net/consor/cgi-bin/OC_Exp.php?Expert=$1"@)
    } else if i == 6 {
        ("ISBN-10"@, "(?i)ISBN:(\\d{10})"@, "http://www.isbnsearch.org/isbn/$1"@)
    } else if i == 7 {
        ("WikipediaVersioned"@, "(?i)WikipediaVersioned:([^\\s]+)"@, "https://wikipedia.org/wiki/index.php?title=$1"@)
    } else {
        ("Wikipedia"@, "(?i)Wikipedia:([^\\s]+)"@, "https://wikipedia.org/wiki/$1"@)
    }
}

fn extractor_exec(i: usize) -> (r: (&'static str, &'static str, &'static str))
    requires
        i < 9,
    ensures
        (r.0@, r.1@, r.2@) == extractor(i as int),
{
    if i == 0 {
        ("DOI", "(?i)DOI:\\s*([^\\s]+)", "https://doi.org/$1")
    } else if i == 1 {
        ("PubMedId", "(?i)PMID:\\s*(\\d+)", "http://www.ncbi.nlm.nih.gov/pubmed/$1")
    } else if i == 2 {
        ("ORCID", "(?i)ORCID:\\s*([^\\s]+)", "https://orcid.org/$1")
    } else if i == 3 {
        ("OMIMPS", "(?i)OMIMPS:\\s*(\\d+)", "https://www.omim.org/phenotypicSeries/$1")
    } else if i == 4 {
        ("OMIM", "(?i)OMIM:\\s*(\\d+)", "https://omim.org/entry/$1")
    } else if i == 5 {
        ("Orphanet", "(?i)Orphanet:\\s*(\\d+)", "https://www.orpha.net/consor/cgi-bin/OC_Exp.php?Expert=$1")
    } else if i == 6 {
        ("ISBN-10", "(?i)ISBN:(\\d{10})", "http://www.isbnsearch.org/isbn/$1")
    } else if i == 7 {
        ("WikipediaVersioned", "(?i)WikipediaVersioned:([^\\s]+)", "https://wikipedia.org/wiki/index.php?title=$1")
    } else {
        ("Wikipedia", "(?i)Wikipedia:([^\\s]+)", "https://wikipedia.org/wiki/$1")
    }
}

/// A link as mathematical values: kind, matched text, URL, start and end.
pub type LinkV = (Seq<char>, Seq<char>, Seq<char>, int, int);

pub open spec fn link_v(l: AnnotationLink) -> LinkV {
    (l.kind@, l.matched_text@, l.url@, l.start as int, l.end as int)
}

pub open spec fn links_v(v: Seq<AnnotationLink>) -> Seq<LinkV> {
    v.map_values(|l: AnnotationLink| link_v(l))
}

/// The text between byte offsets `s` and `e`.
pub open spec fn byte_slice(t: Seq<char>, s: int, e: int) -> Seq<char> {
    let a = char_at_byte(t, s);
    let b = char_at_byte(t, e);
    if a <= b {
        t.subrange(a, b)
    } else {
        Seq::empty()
    }
}

/// The link of kind `kind` with URL template `template` for one match in `t`.
pub open spec fn link_of(t: Seq<char>, kind: Seq<char>, template: Seq<char>, c: Capture) -> LinkV {
    let g = match c.2 {
        Some((a, b)) => byte_slice(t, a as int, b as int),
        None => Seq::empty(),
    };
    (kind, byte_slice(t, c.0 as int, c.1 as int), replace_all(template, "$1"@, g), c.0 as int, c.1 as int)
}

/// The links of kind `i` for the first `k` of its matches.
pub open spec fn kind_links(t: Seq<char>, i: int, caps: Seq<Capture>, k: int) -> Seq<LinkV>
    decreases k,
{
    if k <= 0 || k > caps.len() {
        Seq::empty()
    } else {
        kind_links(t, i, caps, k - 1).push(link_of(t, extractor(i).0, extractor(i).2, caps[k - 1]))
    }
}

/// All candidate links of the first `n` kinds, kind by kind, given each kind's matches.
pub open spec fn candidates(t: Seq<char>, caps: Seq<Seq<Capture>>, n: int) -> Seq<LinkV>
    decreases n,
{
    if n <= 0 || n > caps.len() {
        Seq::empty()
    } else {
        candidates(t, caps, n - 1) + kind_links(t, n - 1, caps[n - 1], caps[n - 1].len() as int)
    }
}

/// `(start, end)` of `a` sorts strictly after that of `b`.
pub open spec fn after(a: LinkV, b: LinkV) -> bool {
    a.3 > b.3 || (a.3 == b.3 && a.4 > b.4)
}

/// Insert `x` after every link whose span does not sort after it (stable).
pub open spec fn insert_link(s: Seq<LinkV>, x: LinkV) -> Seq<LinkV>
    decreases s.len(),
{
    if s.len() == 0 {
        seq![x]
    } else if after(s.last(), x) {
        insert_link(s.drop_last(), x).push(s.last())
    } else {
        s.push(x)
    }
}

/// Links stably sorted by `(start, end)`.
pub open spec fn sort_links(s: Seq<LinkV>) -> Seq<LinkV>
    decreases s.len(),
{
    if s.len() == 0 {
        Seq::empty()
    } else {
        insert_link(sort_links(s.drop_last()), s.last())
    }
}

/// Keep, left to right, each link that starts at or after the end of the last one kept.
pub open spec fn non_overlapping(s: Seq<LinkV>, k: int) -> (Seq<LinkV>, int)
    decreases k,
{
    if k <= 0 || k > s.len() {
        (Seq::empty(), 0)
    } else {
        let (kept, cursor) = non_overlapping(s, k - 1);
        if s[k - 1].3 < cursor {
            (kept, cursor)
        } else {
            (kept.push(s[k - 1]), s[k - 1].4)
        }
    }
}

/// The links of `t` given each kind's matches: all candidates sorted by span, overlaps
/// dropped in favour of the earlier one.
pub open spec fn links_from(t: Seq<char>, caps: Seq<Seq<Capture>>) -> Seq<LinkV> {
    let s = sort_links(candidates(t, caps, caps.len() as int));
    non_overlapping(s, s.len() as int).0
}


proof fn lemma_non_overlapping(s: Seq<LinkV>, k: int)
    ensures
        forall|i: int|
            0 <= i < non_overlapping(s, k).0.len() - 1 ==> (#[trigger] non_overlapping(s, k).0[i]).4
                <= non_overlapping(s, k).0[i + 1].3,
        non_overlapping(s, k).0.len() > 0 ==> non_overlapping(s, k).1 == non_overlapping(s, k).0.last().4,
    decreases k,
{
    if 0 < k <= s.len() {
        lemma_non_overlapping(s, k - 1);
        let (kept, cursor) = non_overlapping(s, k - 1);
        if s[k - 1].3 >= cursor {
            let n = kept.push(s[k - 1]);
            assert forall|i: int| 0 <= i < n.len() - 1 implies (#[trigger] n[i]).4 <= n[i + 1].3 by {
                if i < kept.len() - 1 {
                    assert(n[i] == kept[i] && n[i + 1] == kept[i + 1]);
                } else {
                    assert(n[i] == kept.last());
                }
            }
        }
    }
}

/// Law: the links extracted from a text (`extract_links`) do not overlap and come left to
/// right: each one ends at or before the next one starts.
pub proof fn law_links_do_not_overlap(t: Seq<char>)
    ensures
        forall|i: int|
            0 <= i < links_from(t, kind_captures(t)).len() - 1 ==> (#[trigger] links_from(t, kind_captures(t))[i]).4
                <= links_from(t, kind_captures(t))[i + 1].3,
{
    let s = sort_links(candidates(t, kind_captures(t), kind_captures(t).len() as int));
    lemma_non_overlapping(s, s.len() as int);
}

/// A link that lies in `t`: it is of one of the nine kinds, its span runs forward inside the
/// UTF-8 bytes of `t` between character boundaries, and its matched text is exactly the text
/// of that span.
pub open spec fn link_in_text(t: Seq<char>, l: LinkV) -> bool {
    &&& exists|k: int| 0 <= k < 9 && l.0 == (#[trigger] extractor(k)).0
    &&& 0 <= l.3 <= l.4 <= vstd::utf8::encode_utf8(t).len()
    &&& exists|a: int, b: int|
        #![trigger byte_offset(t, a), byte_offset(t, b)]
        0 <= a <= b <= t.len() && byte_offset(t, a) == l.3 && byte_offset(t, b) == l.4 && l.1
            == t.subrange(a, b)
}

proof fn lemma_link_of_in_text(t: Seq<char>, k: int, c: Capture)
    requires
        0 <= k < 9,
        capture_in(t, c),
    ensures
        link_in_text(t, link_of(t, extractor(k).0, extractor(k).2, c)),
{
    let a = choose|a: int| 0 <= a <= t.len() && #[trigger] byte_offset(t, a) == c.0 as int;
    let b = choose|b: int| 0 <= b <= t.len() && #[trigger] byte_offset(t, b) == c.1 as int;
    if b < a {
        crate::text::lemma_byte_offset_increases(t, b, a);
    }
    crate::text::lemma_char_at_byte_offset(t, a);
    crate::text::lemma_char_at_byte_offset(t, b);
    lemma_byte_offset_bound(t, b);
    let l = link_of(t, extractor(k).0, extractor(k).2, c);
    assert(l.1 == t.subrange(a, b));
    assert(0 <= a <= b <= t.len() && byte_offset(t, a) == l.3 && byte_offset(t, b) == l.4);
    assert(l.0 == extractor(k).0);
}

proof fn lemma_kind_links_in_text(t: Seq<char>, i: int, caps: Seq<Capture>, k: int)
    requires
        0 <= i < 9,
        forall|j: int| 0 <= j < caps.len() ==> capture_in(t, #[trigger] caps[j]),
    ensures
        forall|m: int|
            0 <= m < kind_links(t, i, caps, k).len() ==> link_in_text(t, #[trigger] kind_links(t, i, caps, k)[m]),
    decreases k,
{
    if 0 < k <= caps.len() {
        lemma_kind_links_in_text(t, i, caps, k - 1);
        lemma_link_of_in_text(t, i, caps[k - 1]);
        let p = kind_links(t, i, caps, k - 1);
        assert forall|m: int| 0 <= m < kind_links(t, i, caps, k).len() implies link_in_text(
            t,
            #[trigger] kind_links(t, i, caps, k)[m],
        ) by {
            if m < p.len() {
                assert(kind_links(t, i, caps, k)[m] == p[m]);
            }
        }
    }
}

proof fn lemma_candidates_in_text(t: Seq<char>, caps: Seq<Seq<Capture>>, n: int)
    requires
        caps.len() <= 9,
        forall|j: int, k: int|
            0 <= j < caps.len() && 0 <= k < caps[j].len() ==> capture_in(t, #[trigger] caps[j][k]),
    ensures
        forall|m: int|
            0 <= m < candidates(t, caps, n).len() ==> link_in_text(t, #[trigger] candidates(t, caps, n)[m]),
    decreases n,
{
    if 0 < n <= caps.len() {
        lemma_candidates_in_text(t, caps, n - 1);
        let c = caps[n - 1];
        assert forall|j: int| 0 <= j < c.len() implies capture_in(t, #[trigger] c[j]) by {
            assert(capture_in(t, caps[n - 1][j]));
        }
        lemma_kind_links_in_text(t, n - 1, c, c.len() as int);
        let p = candidates(t, caps, n - 1);
        let q = kind_links(t, n - 1, c, c.len() as int);
        assert forall|m: int| 0 <= m < candidates(t, caps, n).len() implies link_in_text(
            t,
            #[trigger] candidates(t, caps, n)[m],
        ) by {
            if m < p.len() {
                assert(candidates(t, caps, n)[m] == p[m]);
            } else {
                assert(candidates(t, caps, n)[m] == q[m - p.len()]);
            }
        }
    }
}

proof fn lemma_insert_link_in_text(t: Seq<char>, s: Seq<LinkV>, x: LinkV)
    requires
        link_in_text(t, x),
        forall|m: int| 0 <= m < s.len() ==> link_in_text(t, #[trigger] s[m]),
    ensures
        forall|m: int| 0 <= m < insert_link(s, x).len() ==> link_in_text(t, #[trigger] insert_link(s, x)[m]),
    decreases s.len(),
{
    if s.len() > 0 {
        let r = insert_link(s, x);
        if after(s.last(), x) {
            let d = s.drop_last();
            assert forall|m: int| 0 <= m < d.len() implies link_in_text(t, #[trigger] d[m]) by {
                assert(d[m] == s[m]);
            }
            lemma_insert_link_in_text(t, d, x);
            let p = insert_link(d, x);
            assert forall|m: int| 0 <= m < r.len() implies link_in_text(t, #[trigger] r[m]) by {
                if m < p.len() {
                    assert(r[m] == p[m]);
                } else {
                    assert(r[m] == s.last());
                }
            }
        } else {
            assert forall|m: int| 0 <= m < r.len() implies link_in_text(t, #[trigger] r[m]) by {
                if m < s.len() {
                    assert(r[m] == s[m]);
                }
            }
        }
    }
}

proof fn lemma_sort_links_in_text(t: Seq<char>, s: Seq<LinkV>)
    requires
        forall|m: int| 0 <= m < s.len() ==> link_in_text(t, #[trigger] s[m]),
    ensures
        forall|m: int| 0 <= m < sort_links(s).len() ==> link_in_text(t, #[trigger] sort_links(s)[m]),
    decreases s.len(),
{
    if s.len() > 0 {
        let d = s.drop_last();
        assert forall|m: int| 0 <= m < d.len() implies link_in_text(t, #[trigger] d[m]) by {
            assert(d[m] == s[m]);
        }
        lemma_sort_links_in_text(t, d);
        assert(link_in_text(t, s[s.len() - 1]));
        lemma_insert_link_in_text(t, sort_links(d), s.last());
    }
}

proof fn lemma_non_overlapping_in_text(t: Seq<char>, s: Seq<LinkV>, k: int)
    requires
        forall|m: int| 0 <= m < s.len() ==> link_in_text(t, #[trigger] s[m]),
    ensures
        forall|m: int|
            0 <= m < non_overlapping(s, k).0.len() ==> link_in_text(t, #[trigger] non_overlapping(s, k).0[m]),
    decreases k,
{
    if 0 < k <= s.len() {
        lemma_non_overlapping_in_text(t, s, k - 1);
        let kept = non_overlapping(s, k - 1).0;
        let r = non_overlapping(s, k).0;
        assert(link_in_text(t, s[k - 1]));
        assert forall|m: int| 0 <= m < r.len() implies link_in_text(t, #[trigger] r[m]) by {
            if m < kept.len() {
                assert(r[m] == kept[m]);
            }
        }
    }
}

/// Law: every link built from matches that lie in the text lies in the text too: it is of
/// one of the nine kinds, its span runs forward inside the text's bytes, and its matched text is
/// the text of that span.
pub proof fn law_links_lie_in_text(t: Seq<char>, caps: Seq<Seq<Capture>>)
    requires
        caps.len() <= 9,
        forall|j: int, k: int|
            0 <= j < caps.len() && 0 <= k < caps[j].len() ==> capture_in(t, #[trigger] caps[j][k]),
    ensures
        forall|m: int| 0 <= m < links_from(t, caps).len() ==> link_in_text(t, #[trigger] links_from(t, caps)[m]),
{
    let c = candidates(t, caps, caps.len() as int);
    lemma_candidates_in_text(t, caps, caps.len() as int);
    lemma_sort_links_in_text(t, c);
    let s = sort_links(c);
    lemma_non_overlapping_in_text(t, s, s.len() as int);
}

/// The matches of each kind in `t` (a kind whose pattern does not compile has none).
pub open spec fn kind_captures(t: Seq<char>) -> Seq<Seq<Capture>> {
    Seq::new(
        9,
        |i: int|
            match regex_captures(extractor(i).1, t) {
                Some(c) => c,
                None => Seq::empty(),
            },
    )
}

fn link_exec(text: &str, t: &[char], kind: &str, template: &str, c: Capture) -> (r: AnnotationLink)
    requires
        t@ == text@,
    ensures
        link_v(r) == link_of(t@, kind@, template@, c),
{
    let a = char_at_byte_exec(t, c.0);
    let b = char_at_byte_exec(t, c.1);
    let matched = if a <= b { slice_chars(t, a, b) } else { Vec::new() };
    let g: Vec<char> = match c.2 {
        Some((x, y)) => {
            let p = char_at_byte_exec(t, x);
            let q = char_at_byte_exec(t, y);
            if p <= q { slice_chars(t, p, q) } else { Vec::new() }
        },
        None => Vec::new(),
    };
    let tpl = chars_of(template);
    let pat = chars_of("$1");
    proof {
        reveal_strlit("$1");
    }
    let url = replace_exec(tpl.as_slice(), pat.as_slice(), g.as_slice());
    AnnotationLink {
        kind: string_from(chars_of(kind).as_slice()),
        matched_text: string_from(matched.as_slice()),
        url: string_from(url.as_slice()),
        start: c.0,
        end: c.1,
    }
}

fn copy_link(l: &AnnotationLink) -> (r: AnnotationLink)
    ensures
        link_v(r) == link_v(*l),
{
    AnnotationLink {
        kind: string_from(chars_of(l.kind.as_str()).as_slice()),
        matched_text: string_from(chars_of(l.matched_text.as_str()).as_slice()),
        url: string_from(chars_of(l.url.as_str()).as_slice()),
        start: l.start,
        end: l.end,
    }
}

fn insert_link_exec(v: &mut Vec<AnnotationLink>, x: AnnotationLink)
    ensures
        links_v(final(v)@) == insert_link(links_v(old(v)@), link_v(x)),
{
    let ghost orig = links_v(v@);
    let mut k = v.len();
    assert(orig.take(k as int) =~= orig);
    assert(orig.skip(k as int) =~= Seq::<LinkV>::empty());
    assert(insert_link(orig, link_v(x)) + Seq::<LinkV>::empty() =~= insert_link(orig, link_v(x)));
    while k > 0 && (v[k - 1].start > x.start || (v[k - 1].start == x.start && v[k - 1].end > x.end))
        invariant
            k <= v.len(),
            v@ == old(v)@,
            orig == links_v(v@),
            insert_link(orig, link_v(x)) == insert_link(orig.take(k as int), link_v(x)) + orig.skip(
                k as int,
            ),
        decreases k,
    {
        proof {
            let t = orig.take(k as int);
            assert(t.drop_last() =~= orig.take(k - 1));
            assert(t.last() == orig[k - 1]);
            assert(seq![orig[k - 1]] + orig.skip(k as int) =~= orig.skip(k - 1));
            assert(insert_link(orig.take(k - 1), link_v(x)).push(orig[k - 1]) + orig.skip(k as int)
                =~= insert_link(orig.take(k - 1), link_v(x)) + orig.skip(k - 1));
        }
        k -= 1;
    }
    proof {
        if k == 0 {
            assert(orig.take(0) =~= Seq::<LinkV>::empty());
        }
    }
    v.insert(k, x);
    assert(links_v(v@) =~= orig.take(k as int).push(link_v(x)) + orig.skip(k as int));
}

/// `extract_links` given the matches of each link kind in `text`: the candidate links of all
/// kinds sorted by span, overlapping ones dropped in favour of the earlier.
pub fn links_from_captures(text: &str, caps: &Vec<Vec<Capture>>) -> (r: Vec<AnnotationLink>)
    requires
        caps.len() <= 9,
    ensures
        links_v(r@) == links_from(text@, caps@.map_values(|c: Vec<Capture>| c@)),
{
    let ghost cv = caps@.map_values(|c: Vec<Capture>| c@);
    let t = chars_of(text);
    let mut found: Vec<AnnotationLink> = Vec::new();
    let mut i: usize = 0;
    assert(links_v(found@) =~= Seq::<LinkV>::empty());
    while i < caps.len()
        invariant
            cv == caps@.map_values(|c: Vec<Capture>| c@),
            caps.len() <= 9,
            t@ == text@,
            0 <= i <= caps.len(),
            links_v(found@) == candidates(t@, cv, i as int),
        decreases caps.len() - i,
    {
        let (kind, _pattern, template) = extractor_exec(i);
        let ghost before = links_v(found@);
        let mut k: usize = 0;
        while k < caps[i].len()
            invariant
                cv == caps@.map_values(|c: Vec<Capture>| c@),
                t@ == text@,
                0 <= i < caps.len(),
                0 <= k <= caps@[i as int].len(),
                (kind@, template@) == (extractor(i as int).0, extractor(i as int).2),
                links_v(found@) == before + kind_links(t@, i as int, cv[i as int], k as int),
            decreases caps@[i as int].len() - k,
        {
            let l = link_exec(text, t.as_slice(), kind, template, caps[i][k]);
            let ghost fb = links_v(found@);
            found.push(l);
            assert(links_v(found@) =~= fb.push(link_v(l)));
            k += 1;
        }
        i += 1;
    }
    let ghost cand = links_v(found@);
    let mut sorted: Vec<AnnotationLink> = Vec::new();
    let mut j: usize = 0;
    assert(cand.take(0) =~= Seq::<LinkV>::empty());
    assert(links_v(sorted@) =~= Seq::<LinkV>::empty());
    while j < found.len()
        invariant
            cand == links_v(found@),
            0 <= j <= found.len(),
            links_v(sorted@) == sort_links(cand.take(j as int)),
        decreases found.len() - j,
    {
        assert(cand.take(j + 1).drop_last() =~= cand.take(j as int));
        assert(cand.take(j + 1).last() == link_v(found@[j as int]));
        insert_link_exec(&mut sorted, copy_link(&found[j]));
        j += 1;
    }
    assert(cand.take(found.len() as int) =~= cand);
    let ghost sv = links_v(sorted@);
    let mut out: Vec<AnnotationLink> = Vec::new();
    let mut cursor: usize = 0;
    let mut m: usize = 0;
    assert(links_v(out@) =~= Seq::<LinkV>::empty());
    while m < sorted.len()
        invariant
            sv == links_v(sorted@),
            0 <= m <= sorted.len(),
            (links_v(out@), cursor as int) == non_overlapping(sv, m as int),
        decreases sorted.len() - m,
    {
        if sorted[m].start >= cursor {
            cursor = sorted[m].end;
            let ghost ob = links_v(out@);
            out.push(copy_link(&sorted[m]));
            assert(links_v(out@) =~= ob.push(sv[m as int]));
        }
        m += 1;
    }
    out
}

/// `extract_links`: the hyperlinks of `text`, non-overlapping, left to right; each lies in
/// the text (see `link_in_text`).
pub fn extract_links(text: &str) -> (r: Vec<AnnotationLink>)
    ensures
        links_v(r@) == links_from(text@, kind_captures(text@)),
        forall|m: int| 0 <= m < r@.len() ==> link_in_text(text@, link_v(#[trigger] r@[m])),
        forall|m: int| 0 <= m < r@.len() - 1 ==> (#[trigger] r@[m]).end <= r@[m + 1].start,
{
    let mut caps: Vec<Vec<Capture>> = Vec::new();
    let mut i: usize = 0;
    while i < 9
        invariant
            0 <= i <= 9,
            caps@.len() == i,
            forall|j: int| 0 <= j < i ==> (#[trigger] caps@[j])@ == kind_captures(text@)[j],
            forall|j: int, k: int|
                0 <= j < i && 0 <= k < caps@[j]@.len() ==> capture_in(text@, #[trigger] caps@[j]@[k]),
        decreases 9 - i,
    {
        let (_kind, pattern, _template) = extractor_exec(i);
        let c = match find_captures(pattern, text) {
            Some(c) => c,
            None => Vec::new(),
        };
        caps.push(c);
        proof {
            assert forall|j: int, k: int|
                0 <= j < i + 1 && 0 <= k < caps@[j]@.len() implies capture_in(
                text@,
                #[trigger] caps@[j]@[k],
            ) by {
                if j == i {
                    assert(caps@[j] == c);
                }
            }
        }
        i += 1;
    }
    let ghost kc = kind_captures(text@);
    assert(caps@.map_values(|c: Vec<Capture>| c@) =~= kc);
    proof {
        assert forall|j: int, k: int| 0 <= j < kc.len() && 0 <= k < kc[j].len() implies capture_in(
            text@,
            #[trigger] kc[j][k],
        ) by {
            assert(kc[j] == caps@[j]@);
        }
        law_links_lie_in_text(text@, kc);
        law_links_do_not_overlap(text@);
    }
    let r = links_from_captures(text, &caps);
    proof {
        assert forall|m: int| 0 <= m < r@.len() implies link_in_text(text@, link_v(#[trigger] r@[m])) by {
            assert(links_v(r@)[m] == link_v(r@[m]));
        }
        assert forall|m: int| 0 <= m < r@.len() - 1 implies (#[trigger] r@[m]).end <= r@[m + 1].start by {
            assert(links_v(r@)[m] == link_v(r@[m]));
            assert(links_v(r@)[m + 1] == link_v(r@[m + 1]));
        }
    }
    r
}

/// `extract_with_pattern`: the link named `name` for the first match of the regular
/// expression `pattern` in `text`, its URL being `url_template` with `$1` replaced by capture
/// group 1; `None` when nothing matches or `pattern` does not compile.
pub fn extract_with_pattern(name: &str, pattern: &str, url_template: &str, text: &str) -> (r: Option<AnnotationLink>)
    ensures
        match regex_captures(pattern@, text@) {
            Some(c) => if c.len() > 0 {
                r matches Some(l) && link_v(l) == link_of(text@, name@, url_template@, c[0])
            } else {
                r is None
            },
            None => r is None,
        },
{
    match find_captures(pattern, text) {
        None => None,
        Some(c) => {
            if c.len() == 0 {
                None
            } else {
                let t = chars_of(text);
                Some(link_exec(text, t.as_slice(), name, url_template, c[0]))
            }
        },
    }
}

/// `extract_first_link_url`: the URL of the first link of `text`, if any.
pub fn extract_first_link_url(text: &str) -> (r: Option<String>)
    ensures
        match r {
            Some(u) => links_from(text@, kind_captures(text@)).len() > 0 && u@ == links_from(
                text@,
                kind_captures(text@),
            )[0].2,
            None => links_from(text@, kind_captures(text@)).len() == 0,
        },
{
    let links = extract_links(text);
    if links.len() == 0 {
        None
    } else {
        Some(string_from(chars_of(links[0].url.as_str()).as_slice()))
    }
}

/// Characters escaped by a backslash in Markdown text.
pub open spec fn md_special(c: char) -> bool {
    c == '\\' || c == '[' || c == ']' || c == '(' || c == ')' || c == '<' || c == '>' || c == '`'
        || c == '*' || c == '_'
}

/// `escape_md_plain`: each Markdown special character preceded by a backslash.
pub open spec fn escape_md(s: Seq<char>) -> Seq<char>
    decreases s.len(),
{
    if s.len() == 0 {
        Seq::empty()
    } else {
        escape_md(s.drop_last()) + if md_special(s.last()) {
            seq!['\\', s.last()]
        } else {
            seq![s.last()]
        }
    }
}

fn escape_md_exec(s: &[char], out: &mut Vec<char>)
    ensures
        final(out)@ == old(out)@ + escape_md(s@),
{
    let ghost start = out@;
    let mut i: usize = 0;
    assert(s@.take(0) =~= Seq::<char>::empty());
    assert(start + Seq::<char>::empty() =~= start);
    while i < s.len()
        invariant
            0 <= i <= s.len(),
            out@ == start + escape_md(s@.take(i as int)),
        decreases s.len() - i,
    {
        let c = s[i];
        assert(s@.take(i + 1).drop_last() =~= s@.take(i as int));
        assert(s@.take(i + 1).last() == c);
        if c == '\\' || c == '[' || c == ']' || c == '(' || c == ')' || c == '<' || c == '>' || c
            == '`' || c == '*' || c == '_' {
            out.push('\\');
        }
        out.push(c);
        i += 1;
    }
    assert(s@.take(s.len() as int) =~= s@);
}

/// Markdown of `t` with the links `ls[..k]` wrapped, up to the end of the last of them;
/// with the index after it.
pub open spec fn md_upto(t: Seq<char>, ls: Seq<LinkV>, k: int) -> (Seq<char>, int)
    decreases k,
{
    if k <= 0 || k > ls.len() {
        (Seq::empty(), 0)
    } else {
        let (out, idx) = md_upto(t, ls, k - 1);
        let l = ls[k - 1];
        let gap = if l.3 > idx {
            escape_md(byte_slice(t, idx, l.3))
        } else {
            Seq::empty()
        };
        (out + gap + "["@ + escape_md(l.1) + "]("@ + l.2 + ")"@, l.4)
    }
}

/// `linkify_markdown_text` given the links of `t`: Markdown-escaped text with each link
/// written `[text](url)`.
pub open spec fn linkify(t: Seq<char>, ls: Seq<LinkV>) -> Seq<char> {
    if ls.len() == 0 {
        escape_md(t)
    } else {
        let (out, idx) = md_upto(t, ls, ls.len() as int);
        let n = vstd::utf8::encode_utf8(t).len() as int;
        if idx < n {
            out + escape_md(byte_slice(t, idx, n))
        } else {
            out
        }
    }
}

/// `linkify_markdown_text` over given links of `text`.
pub fn linkify_with_links(text: &str, links: &Vec<AnnotationLink>) -> (r: String)
    ensures
        r@ == linkify(text@, links_v(links@)),
{
    let t = chars_of(text);
    let mut out: Vec<char> = Vec::new();
    if links.len() == 0 {
        escape_md_exec(t.as_slice(), &mut out);
        assert(out@ =~= escape_md(t@));
        return string_from(out.as_slice());
    }
    let ghost lv = links_v(links@);
    let mut idx: usize = 0;
    let mut k: usize = 0;
    while k < links.len()
        invariant
            lv == links_v(links@),
            t@ == text@,
            0 <= k <= links.len(),
            (out@, idx as int) == md_upto(t@, lv, k as int),
        decreases links.len() - k,
    {
        let l = &links[k];
        if l.start > idx {
            let a = char_at_byte_exec(t.as_slice(), idx);
            let b = char_at_byte_exec(t.as_slice(), l.start);
            let gap = if a <= b { slice_chars(t.as_slice(), a, b) } else { Vec::new() };
            escape_md_exec(gap.as_slice(), &mut out);
        }
        push_str(&mut out, "[");
        let mt = chars_of(l.matched_text.as_str());
        escape_md_exec(mt.as_slice(), &mut out);
        push_str(&mut out, "](");
        push_str(&mut out, l.url.as_str());
        push_str(&mut out, ")");
        idx = l.end;
        k += 1;
    }
    let n = text.as_bytes().len();
    assert(n == vstd::utf8::encode_utf8(t@).len());
    if idx < n {
        let a = char_at_byte_exec(t.as_slice(), idx);
        let b = char_at_byte_exec(t.as_slice(), n);
        let rest = if a <= b { slice_chars(t.as_slice(), a, b) } else { Vec::new() };
        escape_md_exec(rest.as_slice(), &mut out);
    }
    string_from(out.as_slice())
}

/// `linkify_markdown_text`: Markdown-escaped `text` with its links written `[text](url)`.
pub fn linkify_markdown_text(text: &str) -> (r: String)
    ensures
        r@ == linkify(text@, links_from(text@, kind_captures(text@))),
{
    let links = extract_links(text);
    linkify_with_links(text, &links)
}

} // verus!
