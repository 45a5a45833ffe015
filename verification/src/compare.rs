//! The outcome of comparing two ontology snapshots.
use vstd::prelude::*;
use crate::host::lemma_sorted_unique;
use crate::lifecycle::{cvs, sort_texts, strictly_sorted, strs_v};
use crate::text::{chars_of, seq_eq, slice_chars, string_from};

verus! {

/// Differences between two semantic snapshots; no difference at all means the snapshots are
/// equivalent for the compared facets.
#[derive(Debug, Clone, Default, PartialEq, Eq)]
pub struct SemanticDiff {
    pub missing_entities: Vec<String>,
    pub extra_entities: Vec<String>,
    pub label_mismatches: Vec<String>,
    pub parent_mismatches: Vec<String>,
    pub import_mismatches: Vec<String>,
    pub ontology_iri_mismatch: Option<(Option<String>, Option<String>)>,
}

impl SemanticDiff {
    /// No facet differs.
    pub open spec fn empty_spec(&self) -> bool {
        &&& self.missing_entities@.len() == 0
        &&& self.extra_entities@.len() == 0
        &&& self.label_mismatches@.len() == 0
        &&& self.parent_mismatches@.len() == 0
        &&& self.import_mismatches@.len() == 0
        &&& self.ontology_iri_mismatch is None
    }

    /// `is_empty`: whether no facet differs.
    pub fn is_empty(&self) -> (r: bool)
        ensures
            r == self.empty_spec(),
    {
        self.missing_entities.len() == 0 && self.extra_entities.len() == 0
            && self.label_mismatches.len() == 0 && self.parent_mismatches.len() == 0
            && self.import_mismatches.len() == 0 && self.ontology_iri_mismatch.is_none()
    }
}


/// What the comparison reads of an ontology: its base IRI, its entities (IRI and labels), its
/// sub-class axioms (subject and parent) and the IRIs it imports.
#[derive(Debug, Clone)]
pub struct BridgeSnapshot {
    pub base_iri: Option<String>,
    pub entities: Vec<(String, Vec<String>)>,
    pub sub_class_of: Vec<(String, String)>,
    pub imports: Vec<String>,
}

/// A snapshot as values.
pub struct SnapshotV {
    pub base: Option<Seq<char>>,
    pub entities: Seq<(Seq<char>, Seq<Seq<char>>)>,
    pub parents: Seq<(Seq<char>, Seq<char>)>,
    pub imports: Seq<Seq<char>>,
}

pub open spec fn opt_text(o: Option<String>) -> Option<Seq<char>> {
    match o {
        Some(s) => Some(s@),
        None => None,
    }
}

impl View for BridgeSnapshot {
    type V = SnapshotV;

    open spec fn view(&self) -> SnapshotV {
        SnapshotV {
            base: opt_text(self.base_iri),
            entities: self.entities@.map_values(|e: (String, Vec<String>)| (e.0@, strs_v(e.1@))),
            parents: self.sub_class_of@.map_values(|p: (String, String)| (p.0@, p.1@)),
            imports: strs_v(self.imports@),
        }
    }
}

/// A difference as values.
pub struct DiffV {
    pub missing: Seq<Seq<char>>,
    pub extra: Seq<Seq<char>>,
    pub labels: Seq<Seq<char>>,
    pub parents: Seq<Seq<char>>,
    pub imports: Seq<Seq<char>>,
    pub base: Option<(Option<Seq<char>>, Option<Seq<char>>)>,
}

impl View for SemanticDiff {
    type V = DiffV;

    open spec fn view(&self) -> DiffV {
        DiffV {
            missing: strs_v(self.missing_entities@),
            extra: strs_v(self.extra_entities@),
            labels: strs_v(self.label_mismatches@),
            parents: strs_v(self.parent_mismatches@),
            imports: strs_v(self.import_mismatches@),
            base: match self.ontology_iri_mismatch {
                Some((a, b)) => Some((opt_text(a), opt_text(b))),
                None => None,
            },
        }
    }
}

/// The texts for which `p` holds, each once, in sorted order (a `BTreeSet` walked in order).
pub open spec fn listing(p: spec_fn(Seq<char>) -> bool) -> Seq<Seq<char>> {
    choose|v: Seq<Seq<char>>| strictly_sorted(v) && forall|x: Seq<char>| v.contains(x) <==> p(x)
}

/// `s` has an entity with IRI `x`.
pub open spec fn has_entity(s: SnapshotV, x: Seq<char>) -> bool {
    exists|i: int| 0 <= i < s.entities.len() && s.entities[i].0 == x
}

/// Number of times `x` occurs in `v`.
pub open spec fn occurrences(v: Seq<Seq<char>>, x: Seq<char>) -> nat
    decreases v.len(),
{
    if v.len() == 0 {
        0
    } else {
        occurrences(v.drop_last(), x) + if v.last() == x {
            1nat
        } else {
            0nat
        }
    }
}

/// The same labels, each as often (the sorted label lists are equal).
pub open spec fn same_labels(a: Seq<Seq<char>>, b: Seq<Seq<char>>) -> bool {
    forall|x: Seq<char>| occurrences(a, x) == occurrences(b, x)
}

/// Index of the last entity with IRI `x` (the one a map keyed by IRI keeps).
pub open spec fn last_with(es: Seq<(Seq<char>, Seq<Seq<char>>)>, x: Seq<char>) -> Option<int>
    decreases es.len(),
{
    if es.len() == 0 {
        None
    } else if es.last().0 == x {
        Some(es.len() - 1)
    } else {
        last_with(es.drop_last(), x)
    }
}

/// IRIs of the first `k` entities of `l` whose labels differ from those of `r`'s entity with
/// that IRI, in `l`'s order.
pub open spec fn label_mismatch_list(l: SnapshotV, r: SnapshotV, k: int) -> Seq<Seq<char>>
    decreases k,
{
    if k <= 0 || k > l.entities.len() {
        Seq::empty()
    } else {
        let prev = label_mismatch_list(l, r, k - 1);
        let e = l.entities[k - 1];
        match last_with(r.entities, e.0) {
            Some(j) => if same_labels(e.1, r.entities[j].1) {
                prev
            } else {
                prev.push(e.0)
            },
            None => prev,
        }
    }
}

/// Subject `x` has a parent in one snapshot that it lacks in the other.
pub open spec fn parents_differ(l: SnapshotV, r: SnapshotV, x: Seq<char>) -> bool {
    exists|p: Seq<char>| l.parents.contains((x, p)) != r.parents.contains((x, p))
}

/// `compare_bridges`: the base IRIs when they differ; the entity IRIs only on the left
/// (missing) and only on the right (extra); the left entities whose labels differ from the
/// right entity with the same IRI; the subjects whose sets of parents differ; and the imports
/// on one side only. The IRI lists are sorted, each IRI once.
pub open spec fn semantic_diff(l: SnapshotV, r: SnapshotV) -> DiffV {
    DiffV {
        missing: listing(|x: Seq<char>| has_entity(l, x) && !has_entity(r, x)),
        extra: listing(|x: Seq<char>| has_entity(r, x) && !has_entity(l, x)),
        labels: label_mismatch_list(l, r, l.entities.len() as int),
        parents: listing(|x: Seq<char>| parents_differ(l, r, x)),
        imports: listing(|x: Seq<char>| l.imports.contains(x) != r.imports.contains(x)),
        base: if l.base == r.base {
            None
        } else {
            Some((l.base, r.base))
        },
    }
}

fn copy_text(s: &String) -> (r: String)
    ensures
        r@ == s@,
{
    string_from(chars_of(s.as_str()).as_slice())
}

fn copy_opt(o: &Option<String>) -> (r: Option<String>)
    ensures
        opt_text(r) == opt_text(*o),
{
    match o {
        Some(s) => Some(copy_text(s)),
        None => None,
    }
}

/// The listing of the texts in `c`.
fn sorted_set(c: &Vec<Vec<char>>, Ghost(p): Ghost<spec_fn(Seq<char>) -> bool>) -> (r: Vec<String>)
    requires
        forall|x: Seq<char>| cvs(c@).contains(x) <==> p(x),
    ensures
        strs_v(r@) == listing(p),
{
    let mut d: Vec<Vec<char>> = Vec::new();
    let mut i: usize = 0;
    while i < c.len()
        invariant
            0 <= i <= c.len(),
            cvs(d@).no_duplicates(),
            forall|x: Seq<char>| cvs(d@).contains(x) <==> cvs(c@).take(i as int).contains(x),
        decreases c.len() - i,
    {
        let mut found = false;
        let mut k: usize = 0;
        while k < d.len()
            invariant
                0 <= k <= d.len(),
                i < c.len(),
                found ==> cvs(d@).contains(c@[i as int]@),
                !found ==> forall|m: int| 0 <= m < k ==> cvs(d@)[m] != c@[i as int]@,
            decreases d.len() - k,
        {
            if seq_eq(d[k].as_slice(), c[i].as_slice()) {
                assert(cvs(d@)[k as int] == c@[i as int]@);
                found = true;
            }
            k += 1;
        }
        assert(cvs(c@).take(i + 1) =~= cvs(c@).take(i as int).push(c@[i as int]@));
        if !found {
            let ghost before = cvs(d@);
            let x = slice_chars(c[i].as_slice(), 0, c[i].len());
            assert(x@ =~= c@[i as int]@);
            d.push(x);
            assert(cvs(d@) =~= before.push(c@[i as int]@));
            assert forall|a: int, b: int| 0 <= a < b < cvs(d@).len() implies cvs(d@)[a] != cvs(d@)[b] by {
                if b == before.len() {
                    assert(cvs(d@)[a] == before[a]);
                }
            }
            assert forall|x: Seq<char>| cvs(d@).contains(x) <==> cvs(c@).take(i + 1).contains(x) by {
                lemma_push_has(before, c@[i as int]@, x);
                lemma_push_has(cvs(c@).take(i as int), c@[i as int]@, x);
            }
        } else {
            assert forall|x: Seq<char>| cvs(d@).contains(x) <==> cvs(c@).take(i + 1).contains(x) by {
                lemma_push_has(cvs(c@).take(i as int), c@[i as int]@, x);
            }
        }
        i += 1;
    }
    assert(cvs(c@).take(c.len() as int) =~= cvs(c@));
    let sorted = sort_texts(&d);
    let mut out: Vec<String> = Vec::new();
    let mut j: usize = 0;
    while j < sorted.len()
        invariant
            0 <= j <= sorted.len(),
            strs_v(out@) == cvs(sorted@).take(j as int),
        decreases sorted.len() - j,
    {
        let ghost before = out@;
        out.push(string_from(sorted[j].as_slice()));
        assert(strs_v(out@) =~= strs_v(before).push(sorted@[j as int]@));
        assert(cvs(sorted@).take(j + 1) =~= cvs(sorted@).take(j as int).push(sorted@[j as int]@));
        j += 1;
    }
    assert(cvs(sorted@).take(j as int) =~= cvs(sorted@));
    proof {
        let v = strs_v(out@);
        assert(strictly_sorted(v) && forall|x: Seq<char>| v.contains(x) <==> p(x));
        let w = listing(p);
        assert(strictly_sorted(w) && forall|x: Seq<char>| w.contains(x) <==> p(x));
        lemma_sorted_unique(w, v);
    }
    out
}

fn has_pair_exec(s: &BridgeSnapshot, a: &[char], b: &[char]) -> (r: bool)
    ensures
        r == s@.parents.contains((a@, b@)),
{
    let mut i: usize = 0;
    while i < s.sub_class_of.len()
        invariant
            0 <= i <= s.sub_class_of@.len(),
            forall|k: int| 0 <= k < i ==> s@.parents[k] != (a@, b@),
        decreases s.sub_class_of.len() - i,
    {
        if seq_eq(chars_of(s.sub_class_of[i].0.as_str()).as_slice(), a) && seq_eq(
            chars_of(s.sub_class_of[i].1.as_str()).as_slice(),
            b,
        ) {
            assert(s@.parents[i as int] == (a@, b@));
            return true;
        }
        i += 1;
    }
    false
}

proof fn lemma_push_has(s: Seq<Seq<char>>, e: Seq<char>, y: Seq<char>)
    ensures
        s.push(e).contains(y) <==> (s.contains(y) || y == e),
{
    if s.contains(y) {
        let q = choose|q: int| 0 <= q < s.len() && s[q] == y;
        assert(s.push(e)[q] == y);
    }
    if y == e {
        assert(s.push(e)[s.len() as int] == y);
    }
    if s.push(e).contains(y) && y != e {
        let t = s.push(e);
        let q = choose|q: int| 0 <= q < t.len() && t[q] == y;
        assert(s[q] == y);
    }
}

/// The entries of `v` that `w` lacks, in `v`'s order.
pub open spec fn texts_not_in(v: Seq<Seq<char>>, w: Seq<Seq<char>>) -> Seq<Seq<char>>
    decreases v.len(),
{
    if v.len() == 0 {
        Seq::empty()
    } else if w.contains(v.last()) {
        texts_not_in(v.drop_last(), w)
    } else {
        texts_not_in(v.drop_last(), w).push(v.last())
    }
}

proof fn lemma_texts_not_in(v: Seq<Seq<char>>, w: Seq<Seq<char>>, x: Seq<char>)
    ensures
        texts_not_in(v, w).contains(x) <==> v.contains(x) && !w.contains(x),
    decreases v.len(),
{
    if v.len() > 0 {
        lemma_texts_not_in(v.drop_last(), w, x);
        lemma_push_has(texts_not_in(v.drop_last(), w), v.last(), x);
        lemma_push_has(v.drop_last(), v.last(), x);
        assert(v =~= v.drop_last().push(v.last()));
    }
}

/// The subjects of the pairs of `v` that `w` lacks, in `v`'s order.
pub open spec fn subjects_not_in(v: Seq<(Seq<char>, Seq<char>)>, w: Seq<(Seq<char>, Seq<char>)>) -> Seq<Seq<char>>
    decreases v.len(),
{
    if v.len() == 0 {
        Seq::empty()
    } else if w.contains(v.last()) {
        subjects_not_in(v.drop_last(), w)
    } else {
        subjects_not_in(v.drop_last(), w).push(v.last().0)
    }
}

proof fn lemma_subjects_not_in(v: Seq<(Seq<char>, Seq<char>)>, w: Seq<(Seq<char>, Seq<char>)>, x: Seq<char>)
    ensures
        subjects_not_in(v, w).contains(x) <==> exists|p: Seq<char>| v.contains((x, p)) && !w.contains((x, p)),
    decreases v.len(),
{
    if v.len() > 0 {
        let u = v.drop_last();
        lemma_subjects_not_in(u, w, x);
        lemma_push_has(subjects_not_in(u, w), v.last().0, x);
        assert(v =~= u.push(v.last()));
        let lp = v.last();
        if lp.0 == x && !w.contains(lp) {
            assert(v[v.len() - 1] == (x, lp.1));
            assert(v.contains((x, lp.1)) && !w.contains((x, lp.1)));
        }
        if exists|p: Seq<char>| u.contains((x, p)) && !w.contains((x, p)) {
            let p = choose|p: Seq<char>| u.contains((x, p)) && !w.contains((x, p));
            let q = choose|q: int| 0 <= q < u.len() && u[q] == (x, p);
            assert(v[q] == (x, p));
        }
        if exists|p: Seq<char>| v.contains((x, p)) && !w.contains((x, p)) {
            let p = choose|p: Seq<char>| v.contains((x, p)) && !w.contains((x, p));
            let q = choose|q: int| 0 <= q < v.len() && v[q] == (x, p);
            if q < u.len() {
                assert(u[q] == (x, p));
            } else {
                assert(v.last() == (x, p));
            }
        }
    }
}

/// The entity IRIs of a snapshot, in order.
pub open spec fn iris_of(s: SnapshotV) -> Seq<Seq<char>> {
    s.entities.map_values(|e: (Seq<char>, Seq<Seq<char>>)| e.0)
}

proof fn lemma_iris_of(s: SnapshotV, x: Seq<char>)
    ensures
        iris_of(s).contains(x) <==> has_entity(s, x),
{
    if has_entity(s, x) {
        let i = choose|i: int| 0 <= i < s.entities.len() && s.entities[i].0 == x;
        assert(iris_of(s)[i] == x);
    }
    if iris_of(s).contains(x) {
        let i = choose|i: int| 0 <= i < iris_of(s).len() && iris_of(s)[i] == x;
        assert(s.entities[i].0 == x);
    }
}

fn entity_iris(s: &BridgeSnapshot) -> (r: Vec<String>)
    ensures
        strs_v(r@) == iris_of(s@),
{
    let mut out: Vec<String> = Vec::new();
    let mut i: usize = 0;
    while i < s.entities.len()
        invariant
            0 <= i <= s.entities@.len(),
            strs_v(out@) == iris_of(s@).take(i as int),
        decreases s.entities.len() - i,
    {
        let ghost before = out@;
        out.push(copy_text(&s.entities[i].0));
        assert(strs_v(out@) =~= strs_v(before).push(s@.entities[i as int].0));
        assert(iris_of(s@).take(i + 1) =~= iris_of(s@).take(i as int).push(s@.entities[i as int].0));
        i += 1;
    }
    assert(iris_of(s@).take(i as int) =~= iris_of(s@));
    out
}

fn contains_exec(w: &Vec<String>, x: &[char]) -> (r: bool)
    ensures
        r == strs_v(w@).contains(x@),
{
    let mut i: usize = 0;
    while i < w.len()
        invariant
            0 <= i <= w.len(),
            forall|k: int| 0 <= k < i ==> strs_v(w@)[k] != x@,
        decreases w.len() - i,
    {
        if seq_eq(chars_of(w[i].as_str()).as_slice(), x) {
            assert(strs_v(w@)[i as int] == x@);
            return true;
        }
        i += 1;
    }
    false
}

fn texts_not_in_exec(v: &Vec<String>, w: &Vec<String>) -> (r: Vec<Vec<char>>)
    ensures
        cvs(r@) == texts_not_in(strs_v(v@), strs_v(w@)),
{
    let ghost vv = strs_v(v@);
    let mut out: Vec<Vec<char>> = Vec::new();
    let mut i: usize = 0;
    while i < v.len()
        invariant
            0 <= i <= v.len(),
            vv == strs_v(v@),
            cvs(out@) == texts_not_in(vv.take(i as int), strs_v(w@)),
        decreases v.len() - i,
    {
        let x = chars_of(v[i].as_str());
        assert(vv.take(i + 1).drop_last() =~= vv.take(i as int));
        assert(vv.take(i + 1).last() == x@);
        if !contains_exec(w, x.as_slice()) {
            let ghost before = cvs(out@);
            out.push(x);
            assert(cvs(out@) =~= before.push(vv[i as int]));
        }
        i += 1;
    }
    assert(vv.take(i as int) =~= vv);
    out
}

fn subjects_not_in_exec(a: &BridgeSnapshot, b: &BridgeSnapshot) -> (r: Vec<Vec<char>>)
    ensures
        cvs(r@) == subjects_not_in(a@.parents, b@.parents),
{
    let ghost v = a@.parents;
    let mut out: Vec<Vec<char>> = Vec::new();
    let mut i: usize = 0;
    while i < a.sub_class_of.len()
        invariant
            0 <= i <= a.sub_class_of@.len(),
            v == a@.parents,
            cvs(out@) == subjects_not_in(v.take(i as int), b@.parents),
        decreases a.sub_class_of.len() - i,
    {
        let s = chars_of(a.sub_class_of[i].0.as_str());
        let p = chars_of(a.sub_class_of[i].1.as_str());
        assert(v.take(i + 1).drop_last() =~= v.take(i as int));
        assert(v.take(i + 1).last() == (s@, p@));
        if !has_pair_exec(b, s.as_slice(), p.as_slice()) {
            let ghost before = cvs(out@);
            out.push(s);
            assert(cvs(out@) =~= before.push(s@));
        }
        i += 1;
    }
    assert(v.take(i as int) =~= v);
    out
}

fn push_all_texts(dst: &mut Vec<Vec<char>>, src: Vec<Vec<char>>)
    ensures
        cvs(final(dst)@) == cvs(old(dst)@) + cvs(src@),
{
    let ghost start = cvs(dst@);
    let mut i: usize = 0;
    while i < src.len()
        invariant
            0 <= i <= src.len(),
            cvs(dst@) == start + cvs(src@).take(i as int),
        decreases src.len() - i,
    {
        let ghost before = cvs(dst@);
        let x = slice_chars(src[i].as_slice(), 0, src[i].len());
        assert(x@ =~= src@[i as int]@);
        dst.push(x);
        assert(cvs(dst@) =~= before.push(src@[i as int]@));
        assert(cvs(src@).take(i + 1) =~= cvs(src@).take(i as int).push(src@[i as int]@));
        i += 1;
    }
    assert(cvs(src@).take(i as int) =~= cvs(src@));
}

proof fn lemma_concat_has(a: Seq<Seq<char>>, b: Seq<Seq<char>>, x: Seq<char>)
    ensures
        (a + b).contains(x) <==> a.contains(x) || b.contains(x),
{
    let c = a + b;
    if a.contains(x) {
        let q = choose|q: int| 0 <= q < a.len() && a[q] == x;
        assert(c[q] == x);
    }
    if b.contains(x) {
        let q = choose|q: int| 0 <= q < b.len() && b[q] == x;
        assert(c[a.len() + q] == x);
    }
    if c.contains(x) {
        let q = choose|q: int| 0 <= q < c.len() && c[q] == x;
        if q < a.len() {
            assert(a[q] == x);
        } else {
            assert(b[q - a.len()] == x);
        }
    }
}

proof fn lemma_occurrences_absent(v: Seq<Seq<char>>, x: Seq<char>)
    requires
        !v.contains(x),
    ensures
        occurrences(v, x) == 0,
    decreases v.len(),
{
    if v.len() > 0 {
        assert(v.last() == v[v.len() - 1]);
        assert forall|i: int| 0 <= i < v.drop_last().len() implies v.drop_last()[i] != x by {
            assert(v.drop_last()[i] == v[i]);
        }
        lemma_occurrences_absent(v.drop_last(), x);
    }
}

fn occurrences_exec(v: &Vec<String>, x: &[char]) -> (r: usize)
    ensures
        r == occurrences(strs_v(v@), x@),
{
    let ghost sv = strs_v(v@);
    let mut n: usize = 0;
    let mut i: usize = 0;
    while i < v.len()
        invariant
            0 <= i <= v.len(),
            sv == strs_v(v@),
            n == occurrences(sv.take(i as int), x@),
            n <= i,
        decreases v.len() - i,
    {
        assert(sv.take(i + 1).drop_last() =~= sv.take(i as int));
        if seq_eq(chars_of(v[i].as_str()).as_slice(), x) {
            n += 1;
        }
        i += 1;
    }
    assert(sv.take(i as int) =~= sv);
    n
}

fn same_labels_exec(a: &Vec<String>, b: &Vec<String>) -> (r: bool)
    ensures
        r == same_labels(strs_v(a@), strs_v(b@)),
{
    let ghost av = strs_v(a@);
    let ghost bv = strs_v(b@);
    let mut i: usize = 0;
    while i < a.len()
        invariant
            0 <= i <= a.len(),
            av == strs_v(a@),
            bv == strs_v(b@),
            forall|k: int| 0 <= k < i ==> occurrences(av, #[trigger] av[k]) == occurrences(bv, av[k]),
        decreases a.len() - i,
    {
        let x = chars_of(a[i].as_str());
        if occurrences_exec(a, x.as_slice()) != occurrences_exec(b, x.as_slice()) {
            return false;
        }
        i += 1;
    }
    let mut j: usize = 0;
    while j < b.len()
        invariant
            0 <= j <= b.len(),
            av == strs_v(a@),
            bv == strs_v(b@),
            forall|k: int| 0 <= k < a.len() ==> occurrences(av, #[trigger] av[k]) == occurrences(bv, av[k]),
            forall|k: int| 0 <= k < j ==> occurrences(av, #[trigger] bv[k]) == occurrences(bv, bv[k]),
        decreases b.len() - j,
    {
        let x = chars_of(b[j].as_str());
        if occurrences_exec(a, x.as_slice()) != occurrences_exec(b, x.as_slice()) {
            return false;
        }
        j += 1;
    }
    assert forall|x: Seq<char>| occurrences(av, x) == occurrences(bv, x) by {
        if av.contains(x) {
            let k = choose|k: int| 0 <= k < av.len() && av[k] == x;
        } else if bv.contains(x) {
            let k = choose|k: int| 0 <= k < bv.len() && bv[k] == x;
        } else {
            lemma_occurrences_absent(av, x);
            lemma_occurrences_absent(bv, x);
        }
    }
    true
}

fn last_with_exec(s: &BridgeSnapshot, x: &[char]) -> (r: Option<usize>)
    ensures
        match r {
            Some(j) => last_with(s@.entities, x@) == Some(j as int) && j < s@.entities.len(),
            None => last_with(s@.entities, x@) is None,
        },
{
    let ghost es = s@.entities;
    let mut found: Option<usize> = None;
    let mut i: usize = 0;
    while i < s.entities.len()
        invariant
            0 <= i <= s.entities@.len(),
            es == s@.entities,
            match found {
                Some(j) => last_with(es.take(i as int), x@) == Some(j as int) && j < i,
                None => last_with(es.take(i as int), x@) is None,
            },
        decreases s.entities.len() - i,
    {
        assert(es.take(i + 1).drop_last() =~= es.take(i as int));
        if seq_eq(chars_of(s.entities[i].0.as_str()).as_slice(), x) {
            found = Some(i);
        }
        i += 1;
    }
    assert(es.take(i as int) =~= es);
    found
}

/// `compare_bridges`: the differences between two snapshots (see `semantic_diff`).
pub fn compare_bridges(left: &BridgeSnapshot, right: &BridgeSnapshot) -> (d: SemanticDiff)
    ensures
        d@ == semantic_diff(left@, right@),
{
    let ghost l = left@;
    let ghost r = right@;
    let base = if opt_eq(&left.base_iri, &right.base_iri) {
        None
    } else {
        Some((copy_opt(&left.base_iri), copy_opt(&right.base_iri)))
    };
    let li = entity_iris(left);
    let ri = entity_iris(right);
    let m = texts_not_in_exec(&li, &ri);
    let e = texts_not_in_exec(&ri, &li);
    let mut pd = subjects_not_in_exec(left, right);
    push_all_texts(&mut pd, subjects_not_in_exec(right, left));
    let mut id = texts_not_in_exec(&left.imports, &right.imports);
    push_all_texts(&mut id, texts_not_in_exec(&right.imports, &left.imports));
    proof {
        assert forall|x: Seq<char>| cvs(m@).contains(x) <==> has_entity(l, x) && !has_entity(r, x) by {
            lemma_texts_not_in(iris_of(l), iris_of(r), x);
            lemma_iris_of(l, x);
            lemma_iris_of(r, x);
        }
        assert forall|x: Seq<char>| cvs(e@).contains(x) <==> has_entity(r, x) && !has_entity(l, x) by {
            lemma_texts_not_in(iris_of(r), iris_of(l), x);
            lemma_iris_of(l, x);
            lemma_iris_of(r, x);
        }
        assert forall|x: Seq<char>| cvs(pd@).contains(x) <==> parents_differ(l, r, x) by {
            lemma_subjects_not_in(l.parents, r.parents, x);
            lemma_subjects_not_in(r.parents, l.parents, x);
            lemma_concat_has(subjects_not_in(l.parents, r.parents), subjects_not_in(r.parents, l.parents), x);
            if exists|p: Seq<char>| l.parents.contains((x, p)) != r.parents.contains((x, p)) {
                let p = choose|p: Seq<char>| l.parents.contains((x, p)) != r.parents.contains((x, p));
                if l.parents.contains((x, p)) {
                    assert(l.parents.contains((x, p)) && !r.parents.contains((x, p)));
                } else {
                    assert(r.parents.contains((x, p)) && !l.parents.contains((x, p)));
                }
            }
        }
        assert forall|x: Seq<char>| cvs(id@).contains(x) <==> l.imports.contains(x) != r.imports.contains(x) by {
            lemma_texts_not_in(l.imports, r.imports, x);
            lemma_texts_not_in(r.imports, l.imports, x);
            lemma_concat_has(texts_not_in(l.imports, r.imports), texts_not_in(r.imports, l.imports), x);
        }
    }
    let missing = sorted_set(&m, Ghost(|x: Seq<char>| has_entity(l, x) && !has_entity(r, x)));
    let extra = sorted_set(&e, Ghost(|x: Seq<char>| has_entity(r, x) && !has_entity(l, x)));
    let parents = sorted_set(
        &pd,
        Ghost(|x: Seq<char>| parents_differ(l, r, x)),
    );
    let imports = sorted_set(&id, Ghost(|x: Seq<char>| l.imports.contains(x) != r.imports.contains(x)));
    let mut labels: Vec<String> = Vec::new();
    let mut i: usize = 0;
    while i < left.entities.len()
        invariant
            0 <= i <= left.entities@.len(),
            l == left@,
            r == right@,
            strs_v(labels@) == label_mismatch_list(l, r, i as int),
        decreases left.entities.len() - i,
    {
        let x = chars_of(left.entities[i].0.as_str());
        assert(x@ == l.entities[i as int].0);
        match last_with_exec(right, x.as_slice()) {
            Some(j) => {
                assert(strs_v(left.entities@[i as int].1@) == l.entities[i as int].1);
                assert(strs_v(right.entities@[j as int].1@) == r.entities[j as int].1);
                if !same_labels_exec(&left.entities[i].1, &right.entities[j].1) {
                    let ghost before = labels@;
                    labels.push(copy_text(&left.entities[i].0));
                    assert(strs_v(labels@) =~= strs_v(before).push(l.entities[i as int].0));
                }
            },
            None => {},
        }
        i += 1;
    }
    SemanticDiff {
        missing_entities: missing,
        extra_entities: extra,
        label_mismatches: labels,
        parent_mismatches: parents,
        import_mismatches: imports,
        ontology_iri_mismatch: base,
    }
}

fn opt_eq(a: &Option<String>, b: &Option<String>) -> (r: bool)
    ensures
        r == (opt_text(*a) == opt_text(*b)),
{
    match (a, b) {
        (Some(x), Some(y)) => seq_eq(chars_of(x.as_str()).as_slice(), chars_of(y.as_str()).as_slice()),
        (None, None) => true,
        _ => false,
    }
}


proof fn lemma_listing_empty(p: spec_fn(Seq<char>) -> bool)
    requires
        forall|x: Seq<char>| !#[trigger] p(x),
    ensures
        listing(p).len() == 0,
{
    let e = Seq::<Seq<char>>::empty();
    assert(strictly_sorted(e) && forall|x: Seq<char>| e.contains(x) <==> p(x));
    let v = listing(p);
    assert(strictly_sorted(v) && forall|x: Seq<char>| v.contains(x) <==> p(x));
    if v.len() > 0 {
        assert(v.contains(v[0]));
    }
}

proof fn lemma_last_with_distinct(es: Seq<(Seq<char>, Seq<Seq<char>>)>, i: int)
    requires
        0 <= i < es.len(),
        forall|a: int, b: int| 0 <= a < b < es.len() ==> es[a].0 != es[b].0,
    ensures
        last_with(es, es[i].0) == Some(i),
    decreases es.len(),
{
    if i < es.len() - 1 {
        let u = es.drop_last();
        assert(es.last() == es[es.len() - 1]);
        assert(u[i] == es[i]);
        assert forall|a: int, b: int| 0 <= a < b < u.len() implies u[a].0 != u[b].0 by {
            assert(u[a] == es[a] && u[b] == es[b]);
        }
        lemma_last_with_distinct(u, i);
    }
}

proof fn lemma_no_label_mismatch(s: SnapshotV, k: int)
    requires
        0 <= k <= s.entities.len(),
        forall|a: int, b: int| 0 <= a < b < s.entities.len() ==> s.entities[a].0 != s.entities[b].0,
    ensures
        label_mismatch_list(s, s, k).len() == 0,
    decreases k,
{
    if k > 0 {
        lemma_no_label_mismatch(s, k - 1);
        lemma_last_with_distinct(s.entities, k - 1);
    }
}

/// Law: a snapshot whose entity IRIs are distinct has no difference with itself.
pub proof fn law_compare_with_itself(s: SnapshotV)
    requires
        forall|a: int, b: int| 0 <= a < b < s.entities.len() ==> s.entities[a].0 != s.entities[b].0,
    ensures
        semantic_diff(s, s).missing.len() == 0,
        semantic_diff(s, s).extra.len() == 0,
        semantic_diff(s, s).labels.len() == 0,
        semantic_diff(s, s).parents.len() == 0,
        semantic_diff(s, s).imports.len() == 0,
        semantic_diff(s, s).base is None,
{
    lemma_listing_empty(|x: Seq<char>| has_entity(s, x) && !has_entity(s, x));
    lemma_listing_empty(|x: Seq<char>| parents_differ(s, s, x));
    lemma_listing_empty(|x: Seq<char>| s.imports.contains(x) != s.imports.contains(x));
    lemma_no_label_mismatch(s, s.entities.len() as int);
}

/// Law: swapping the snapshots swaps the missing and the extra entities and the two base
/// IRIs, and leaves the differing parents and imports as they are.
pub proof fn law_compare_swapped(l: SnapshotV, r: SnapshotV)
    ensures
        semantic_diff(l, r).missing == semantic_diff(r, l).extra,
        semantic_diff(l, r).extra == semantic_diff(r, l).missing,
        semantic_diff(l, r).parents == semantic_diff(r, l).parents,
        semantic_diff(l, r).imports == semantic_diff(r, l).imports,
        semantic_diff(l, r).base is None <==> semantic_diff(r, l).base is None,
        semantic_diff(l, r).base matches Some((a, b)) ==> semantic_diff(r, l).base == Some((b, a)),
{
    let p1 = |x: Seq<char>| parents_differ(l, r, x);
    let p2 = |x: Seq<char>| parents_differ(r, l, x);
    assert(p1 =~= p2);
    let i1 = |x: Seq<char>| l.imports.contains(x) != r.imports.contains(x);
    let i2 = |x: Seq<char>| r.imports.contains(x) != l.imports.contains(x);
    assert(i1 =~= i2);
}

} // verus!
