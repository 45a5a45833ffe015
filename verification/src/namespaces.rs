//! Prefix → namespace-IRI maps and longest-namespace matching.
use vstd::prelude::*;
use crate::text::{chars_of, seq_eq, slice_chars, starts_with, starts_with_exec, string_from};

verus! {

/// Strict lexicographic order on character sequences (code-point order, as `String::cmp`).
pub open spec fn seq_lt(a: Seq<char>, b: Seq<char>) -> bool
    decreases a.len(),
{
    if a.len() == 0 {
        b.len() > 0
    } else if b.len() == 0 {
        false
    } else if a[0] != b[0] {
        a[0] < b[0]
    } else {
        seq_lt(a.drop_first(), b.drop_first())
    }
}

/// Whether `a` sorts strictly before `b`.
pub fn chars_lt(a: &[char], b: &[char]) -> (r: bool)
    ensures
        r == seq_lt(a@, b@),
{
    let mut k: usize = 0;
    assert(a@.skip(0) == a@);
    assert(b@.skip(0) == b@);
    while k < a.len() && k < b.len() && a[k] == b[k]
        invariant
            0 <= k <= a.len(),
            k <= b.len(),
            seq_lt(a@, b@) == seq_lt(a@.skip(k as int), b@.skip(k as int)),
        decreases a.len() - k,
    {
        assert(a@.skip(k as int).drop_first() == a@.skip(k + 1));
        assert(b@.skip(k as int).drop_first() == b@.skip(k + 1));
        k += 1;
    }
    if k == a.len() {
        k < b.len()
    } else if k == b.len() {
        false
    } else {
        a[k] < b[k]
    }
}

/// A prefix table: distinct prefixes, each bound to one namespace IRI.
pub struct Namespaces {
    entries: Vec<(Vec<char>, Vec<char>)>,
}

/// The table as `(prefix, namespace)` pairs.
pub open spec fn pairs_of(e: Seq<(Vec<char>, Vec<char>)>) -> Seq<(Seq<char>, Seq<char>)> {
    e.map_values(|p: (Vec<char>, Vec<char>)| (p.0@, p.1@))
}

/// No prefix occurs twice.
pub open spec fn distinct_keys(s: Seq<(Seq<char>, Seq<char>)>) -> bool {
    forall|i: int, j: int| 0 <= i < j < s.len() ==> s[i].0 != s[j].0
}

/// Namespace bound to `k`, if any.
pub open spec fn lookup(s: Seq<(Seq<char>, Seq<char>)>, k: Seq<char>) -> Option<Seq<char>> {
    if exists|i: int| 0 <= i < s.len() && s[i].0 == k {
        Some(s[choose|i: int| 0 <= i < s.len() && s[i].0 == k].1)
    } else {
        None
    }
}

pub proof fn lemma_lookup_at(s: Seq<(Seq<char>, Seq<char>)>, i: int)
    requires
        distinct_keys(s),
        0 <= i < s.len(),
    ensures
        lookup(s, s[i].0) == Some(s[i].1),
{
    let j = choose|j: int| 0 <= j < s.len() && s[j].0 == s[i].0;
    assert(j == i);
}

/// `s` with `k` bound to `v`: an existing binding of `k` is replaced in place, a new one is
/// appended (`BTreeMap::insert`).
pub open spec fn assoc_insert(
    s: Seq<(Seq<char>, Seq<char>)>,
    k: Seq<char>,
    v: Seq<char>,
) -> Seq<(Seq<char>, Seq<char>)> {
    if exists|i: int| 0 <= i < s.len() && s[i].0 == k {
        s.update(choose|i: int| 0 <= i < s.len() && s[i].0 == k, (k, v))
    } else {
        s.push((k, v))
    }
}

/// `a` extended with every binding of `b`, in order (`BTreeMap::extend`).
pub open spec fn assoc_extend(
    a: Seq<(Seq<char>, Seq<char>)>,
    b: Seq<(Seq<char>, Seq<char>)>,
) -> Seq<(Seq<char>, Seq<char>)>
    decreases b.len(),
{
    if b.len() == 0 {
        a
    } else {
        assoc_extend(assoc_insert(a, b[0].0, b[0].1), b.drop_first())
    }
}

/// Law: after binding `k` to `v`, looking up `k` gives `v`, every other prefix keeps its
/// binding, and no prefix is bound twice.
pub proof fn law_insert_then_lookup(s: Seq<(Seq<char>, Seq<char>)>, k: Seq<char>, v: Seq<char>, other: Seq<char>)
    requires
        distinct_keys(s),
    ensures
        distinct_keys(assoc_insert(s, k, v)),
        lookup(assoc_insert(s, k, v), k) == Some(v),
        other != k ==> lookup(assoc_insert(s, k, v), other) == lookup(s, other),
{
    let t = assoc_insert(s, k, v);
    if exists|i: int| 0 <= i < s.len() && s[i].0 == k {
        let i = choose|i: int| 0 <= i < s.len() && s[i].0 == k;
        assert(t == s.update(i, (k, v)));
        assert(distinct_keys(t)) by {
            assert forall|a: int, b: int| 0 <= a < b < t.len() implies t[a].0 != t[b].0 by {
                if a != i && b != i {
                    assert(t[a] == s[a] && t[b] == s[b]);
                }
            }
        }
        lemma_lookup_at(t, i);
        if other != k {
            if exists|j: int| 0 <= j < s.len() && s[j].0 == other {
                let j = choose|j: int| 0 <= j < s.len() && s[j].0 == other;
                assert(t[j] == s[j]);
                lemma_lookup_at(s, j);
                lemma_lookup_at(t, j);
            } else {
                assert forall|j: int| 0 <= j < t.len() implies t[j].0 != other by {
                    if j != i {
                        assert(t[j] == s[j]);
                    }
                }
            }
        }
    } else {
        assert(t == s.push((k, v)));
        assert(distinct_keys(t)) by {
            assert forall|a: int, b: int| 0 <= a < b < t.len() implies t[a].0 != t[b].0 by {
                assert(t[a] == s[a]);
                if b < s.len() {
                    assert(t[b] == s[b]);
                }
            }
        }
        lemma_lookup_at(t, s.len() as int);
        if other != k {
            if exists|j: int| 0 <= j < s.len() && s[j].0 == other {
                let j = choose|j: int| 0 <= j < s.len() && s[j].0 == other;
                assert(t[j] == s[j]);
                lemma_lookup_at(s, j);
                lemma_lookup_at(t, j);
            } else {
                assert forall|j: int| 0 <= j < t.len() implies t[j].0 != other by {
                    if j < s.len() {
                        assert(t[j] == s[j]);
                    }
                }
            }
        }
    }
}


/// With distinct prefixes, dropping the first binding leaves the others' lookups.
proof fn lemma_lookup_drop_first(b: Seq<(Seq<char>, Seq<char>)>, k: Seq<char>)
    requires
        distinct_keys(b),
        b.len() > 0,
        k != b[0].0,
    ensures
        lookup(b, k) == lookup(b.drop_first(), k),
        distinct_keys(b.drop_first()),
{
    let r = b.drop_first();
    assert(distinct_keys(r)) by {
        assert forall|x: int, y: int| 0 <= x < y < r.len() implies r[x].0 != r[y].0 by {
            assert(r[x] == b[x + 1] && r[y] == b[y + 1]);
        }
    }
    if exists|i: int| 0 <= i < b.len() && b[i].0 == k {
        let i = choose|i: int| 0 <= i < b.len() && b[i].0 == k;
        lemma_lookup_at(b, i);
        assert(r[i - 1] == b[i]);
        lemma_lookup_at(r, i - 1);
    } else {
        assert forall|j: int| 0 <= j < r.len() implies r[j].0 != k by {
            assert(r[j] == b[j + 1]);
        }
    }
}

/// Law: extending a table `a` with the bindings of `b` (distinct prefixes) binds each prefix
/// as `b` does where `b` binds it, and as `a` does elsewhere.
pub proof fn law_extend_then_lookup(a: Seq<(Seq<char>, Seq<char>)>, b: Seq<(Seq<char>, Seq<char>)>, k: Seq<char>)
    requires
        distinct_keys(a),
        distinct_keys(b),
    ensures
        distinct_keys(assoc_extend(a, b)),
        lookup(assoc_extend(a, b), k) == match lookup(b, k) {
            Some(v) => Some(v),
            None => lookup(a, k),
        },
    decreases b.len(),
{
    if b.len() > 0 {
        let a2 = assoc_insert(a, b[0].0, b[0].1);
        law_insert_then_lookup(a, b[0].0, b[0].1, k);
        let r = b.drop_first();
        lemma_lookup_at(b, 0);
        if k == b[0].0 {
            assert(distinct_keys(r)) by {
                assert forall|x: int, y: int| 0 <= x < y < r.len() implies r[x].0 != r[y].0 by {
                    assert(r[x] == b[x + 1] && r[y] == b[y + 1]);
                }
            }
            assert forall|j: int| 0 <= j < r.len() implies r[j].0 != k by {
                assert(r[j] == b[j + 1]);
            }
            assert(lookup(r, k) is None);
        } else {
            lemma_lookup_drop_first(b, k);
        }
        law_extend_then_lookup(a2, r, k);
    }
}

impl View for Namespaces {
    type V = Seq<(Seq<char>, Seq<char>)>;

    closed spec fn view(&self) -> Seq<(Seq<char>, Seq<char>)> {
        pairs_of(self.entries@)
    }
}

impl Namespaces {
    #[verifier::type_invariant]
    spec fn inv(self) -> bool {
        distinct_keys(pairs_of(self.entries@))
    }

    /// The namespace bound to prefix `k`.
    pub open spec fn get_spec(self, k: Seq<char>) -> Option<Seq<char>> {
        lookup(self@, k)
    }

    /// Empty table.
    pub fn new() -> (r: Namespaces)
        ensures
            r@ == Seq::<(Seq<char>, Seq<char>)>::empty(),
    {
        let r = Namespaces { entries: Vec::new() };
        assert(pairs_of(r.entries@) =~= Seq::<(Seq<char>, Seq<char>)>::empty());
        r
    }

    /// Every table has distinct prefixes (no run-time work).
    pub fn distinct(&self)
        ensures
            distinct_keys(self@),
    {
        proof {
            use_type_invariant(self);
        }
    }

    /// Number of bindings.
    pub fn len(&self) -> (r: usize)
        ensures
            r == self@.len(),
    {
        self.entries.len()
    }

    /// Prefix of the `i`-th binding.
    pub fn key_at(&self, i: usize) -> (r: &Vec<char>)
        requires
            i < self@.len(),
        ensures
            r@ == self@[i as int].0,
    {
        &self.entries[i].0
    }

    /// Namespace of the `i`-th binding.
    pub fn value_at(&self, i: usize) -> (r: &Vec<char>)
        requires
            i < self@.len(),
        ensures
            r@ == self@[i as int].1,
    {
        &self.entries[i].1
    }

    /// Position of prefix `k`, if bound.
    pub fn position(&self, k: &[char]) -> (r: Option<usize>)
        ensures
            match r {
                Some(i) => i < self@.len() && self@[i as int].0 == k@,
                None => forall|i: int| 0 <= i < self@.len() ==> self@[i].0 != k@,
            },
    {
        let mut i: usize = 0;
        while i < self.entries.len()
            invariant
                0 <= i <= self@.len(),
                self@.len() == self.entries@.len(),
                forall|j: int| 0 <= j < i ==> self@[j].0 != k@,
            decreases self.entries.len() - i,
        {
            if seq_eq(self.entries[i].0.as_slice(), k) {
                return Some(i);
            }
            i += 1;
        }
        None
    }

    /// Namespace bound to prefix `k` (as characters).
    pub fn get_chars(&self, k: &[char]) -> (r: Option<&Vec<char>>)
        ensures
            match r {
                Some(v) => self.get_spec(k@) == Some(v@),
                None => self.get_spec(k@) is None,
            },
    {
        proof {
            use_type_invariant(self);
        }
        match self.position(k) {
            Some(i) => {
                proof {
                    lemma_lookup_at(self@, i as int);
                }
                Some(&self.entries[i].1)
            },
            None => None,
        }
    }

    /// Namespace bound to `prefix`.
    pub fn get(&self, prefix: &str) -> (r: Option<String>)
        ensures
            match r {
                Some(v) => self.get_spec(prefix@) == Some(v@),
                None => self.get_spec(prefix@) is None,
            },
    {
        let k = chars_of(prefix);
        match self.get_chars(k.as_slice()) {
            Some(v) => Some(string_from(v.as_slice())),
            None => None,
        }
    }

    /// Bind `k` to `v`, replacing an existing binding of `k` in place.
    pub fn insert_chars(&mut self, k: &[char], v: &[char])
        ensures
            final(self)@ == assoc_insert(old(self)@, k@, v@),
    {
        proof {
            use_type_invariant(&*self);
        }
        let kv = slice_chars(k, 0, k.len());
        let vv = slice_chars(v, 0, v.len());
        match self.position(k) {
            Some(i) => {
                proof {
                    self.lemma_position_spec(k@, i as int);
                }
                let ghost old_e = self.entries@;
                let mut e: Vec<(Vec<char>, Vec<char>)> = Vec::new();
                std::mem::swap(&mut e, &mut self.entries);
                assert(e@ == old_e);
                e.set(i, (kv, vv));
                assert(e@ == old_e.update(i as int, (kv, vv)));
                assert(pairs_of(e@).len() == pairs_of(old_e).len());
                assert forall|j: int| 0 <= j < pairs_of(e@).len() implies pairs_of(e@)[j]
                    == pairs_of(old_e).update(i as int, (k@, v@))[j] by {
                    if j == i {
                        assert(pairs_of(e@)[j] == (e@[j].0@, e@[j].1@));
                    }
                }
                assert(pairs_of(e@) =~= pairs_of(old_e).update(i as int, (k@, v@)));
                self.entries = e;
            },
            None => {
                proof {
                    self.lemma_position_spec_none(k@);
                }
                let ghost old_e = self.entries@;
                let mut e: Vec<(Vec<char>, Vec<char>)> = Vec::new();
                std::mem::swap(&mut e, &mut self.entries);
                assert(e@ == old_e);
                e.push((kv, vv));
                assert(e@ == old_e.push((kv, vv)));
                assert(pairs_of(e@).len() == pairs_of(old_e).len() + 1);
                assert forall|j: int| 0 <= j < pairs_of(e@).len() implies pairs_of(e@)[j]
                    == pairs_of(old_e).push((k@, v@))[j] by {
                    assert(pairs_of(e@)[j] == (e@[j].0@, e@[j].1@));
                    if j < old_e.len() {
                        assert(pairs_of(old_e)[j] == (old_e[j].0@, old_e[j].1@));
                    }
                }
                assert(pairs_of(e@) =~= pairs_of(old_e).push((k@, v@)));
                self.entries = e;
            },
        }
    }

    proof fn lemma_position_spec(&self, k: Seq<char>, i: int)
        requires
            distinct_keys(self@),
            0 <= i < self@.len(),
            self@[i].0 == k,
        ensures
            (choose|j: int| 0 <= j < self@.len() && self@[j].0 == k) == i,
    {
        let j = choose|j: int| 0 <= j < self@.len() && self@[j].0 == k;
        assert(j == i);
    }

    proof fn lemma_position_spec_none(&self, k: Seq<char>)
        requires
            forall|i: int| 0 <= i < self@.len() ==> self@[i].0 != k,
        ensures
            !(exists|i: int| 0 <= i < self@.len() && self@[i].0 == k),
    {
    }

    /// Bind `prefix` to `namespace` (`BTreeMap::insert`).
    pub fn insert(&mut self, prefix: &str, namespace: &str)
        ensures
            final(self)@ == assoc_insert(old(self)@, prefix@, namespace@),
    {
        let k = chars_of(prefix);
        let v = chars_of(namespace);
        self.insert_chars(k.as_slice(), v.as_slice());
    }

    /// Copy of the table.
    pub fn duplicate(&self) -> (r: Namespaces)
        ensures
            r@ == self@,
    {
        proof {
            use_type_invariant(self);
        }
        let mut e: Vec<(Vec<char>, Vec<char>)> = Vec::new();
        let mut i: usize = 0;
        while i < self.entries.len()
            invariant
                0 <= i <= self.entries@.len(),
                pairs_of(e@) == pairs_of(self.entries@).take(i as int),
                e@.len() == i,
                distinct_keys(pairs_of(self.entries@)),
            decreases self.entries.len() - i,
        {
            let k = slice_chars(self.entries[i].0.as_slice(), 0, self.entries[i].0.len());
            let v = slice_chars(self.entries[i].1.as_slice(), 0, self.entries[i].1.len());
            let ghost e0 = e@;
            e.push((k, v));
            assert(e@ == e0.push((k, v)));
            i += 1;
            assert forall|j: int| 0 <= j < i implies pairs_of(e@)[j] == pairs_of(
                self.entries@,
            ).take(i as int)[j] by {
                assert(pairs_of(e@)[j] == (e@[j].0@, e@[j].1@));
                assert(pairs_of(self.entries@)[j] == (self.entries@[j].0@, self.entries@[j].1@));
                if j < i - 1 {
                    assert(pairs_of(e0)[j] == (e0[j].0@, e0[j].1@));
                    assert(pairs_of(e0)[j] == pairs_of(self.entries@).take(i - 1)[j]);
                }
            }
            assert(pairs_of(e@) =~= pairs_of(self.entries@).take(i as int));
        }
        assert(pairs_of(self.entries@).take(i as int) =~= pairs_of(self.entries@));
        Namespaces { entries: e }
    }
}

/// Entry `i` is a usable namespace for `iri`: non-empty prefix whose namespace starts `iri`.
pub open spec fn is_candidate(s: Seq<(Seq<char>, Seq<char>)>, iri: Seq<char>, i: int) -> bool {
    0 <= i < s.len() && s[i].0.len() > 0 && starts_with(iri, s[i].1)
}

/// Entry `i` is the longest-namespace candidate, ties broken by the smaller prefix.
pub open spec fn is_best_match(s: Seq<(Seq<char>, Seq<char>)>, iri: Seq<char>, i: int) -> bool {
    &&& is_candidate(s, iri, i)
    &&& forall|j: int|
        is_candidate(s, iri, j) && j != i ==> s[j].1.len() < s[i].1.len() || (s[j].1.len()
            == s[i].1.len() && seq_lt(s[i].0, s[j].0))
}

/// Longest-prefix namespace match (`best_namespace_match`): index of the winning binding.
pub fn best_namespace_match(iri: &[char], ns: &Namespaces) -> (r: Option<usize>)
    ensures
        match r {
            Some(i) => is_best_match(ns@, iri@, i as int),
            None => forall|j: int| !is_candidate(ns@, iri@, j),
        },
{
    proof {
        use_type_invariant(ns);
        lemma_seq_lt_total();
    }
    let mut best: Option<usize> = None;
    let mut i: usize = 0;
    while i < ns.len()
        invariant
            0 <= i <= ns@.len(),
            distinct_keys(ns@),
            forall|a: Seq<char>, b: Seq<char>| a != b ==> seq_lt(a, b) || seq_lt(b, a),
            forall|a: Seq<char>, b: Seq<char>| seq_lt(a, b) ==> !seq_lt(b, a),
            forall|a: Seq<char>, b: Seq<char>, c: Seq<char>|
                #[trigger] seq_lt(a, b) && #[trigger] seq_lt(b, c) ==> seq_lt(a, c),
            match best {
                Some(b) => b < i && is_candidate(ns@, iri@, b as int) && forall|j: int|
                    0 <= j < i && is_candidate(ns@, iri@, j) && j != b ==> ns@[j].1.len()
                        < ns@[b as int].1.len() || (ns@[j].1.len() == ns@[b as int].1.len()
                        && seq_lt(ns@[b as int].0, ns@[j].0)),
                None => forall|j: int| 0 <= j < i ==> !is_candidate(ns@, iri@, j),
            },
        decreases ns@.len() - i,
    {
        let k = ns.key_at(i);
        let v = ns.value_at(i);
        if k.len() > 0 && starts_with_exec(iri, v.as_slice()) {
            match best {
                None => {
                    best = Some(i);
                },
                Some(b) => {
                    let bv = ns.value_at(b);
                    let bk = ns.key_at(b);
                    if v.len() > bv.len() || (v.len() == bv.len() && chars_lt(k.as_slice(), bk.as_slice())) {
                        best = Some(i);
                    }
                },
            }
        }
        i += 1;
    }
    best
}

pub proof fn lemma_seq_lt_irreflexive(a: Seq<char>)
    ensures
        !seq_lt(a, a),
    decreases a.len(),
{
    if a.len() > 0 {
        lemma_seq_lt_irreflexive(a.drop_first());
    }
}

pub proof fn lemma_seq_lt_pair(a: Seq<char>, b: Seq<char>)
    ensures
        a != b ==> seq_lt(a, b) || seq_lt(b, a),
        seq_lt(a, b) ==> !seq_lt(b, a),
    decreases a.len(),
{
    if a.len() > 0 && b.len() > 0 && a[0] == b[0] {
        lemma_seq_lt_pair(a.drop_first(), b.drop_first());
        if a != b {
            assert(a == seq![a[0]] + a.drop_first());
            assert(b == seq![b[0]] + b.drop_first());
        }
    }
    if a.len() == 0 && b.len() == 0 {
        assert(a =~= b);
    }
}

pub proof fn lemma_seq_lt_trans(a: Seq<char>, b: Seq<char>, c: Seq<char>)
    requires
        seq_lt(a, b),
        seq_lt(b, c),
    ensures
        seq_lt(a, c),
    decreases a.len(),
{
    if a.len() > 0 && b.len() > 0 && c.len() > 0 && a[0] == b[0] && b[0] == c[0] {
        lemma_seq_lt_trans(a.drop_first(), b.drop_first(), c.drop_first());
    }
}

pub proof fn lemma_seq_lt_total()
    ensures
        forall|a: Seq<char>, b: Seq<char>| a != b ==> seq_lt(a, b) || seq_lt(b, a),
        forall|a: Seq<char>, b: Seq<char>| seq_lt(a, b) ==> !seq_lt(b, a),
        forall|a: Seq<char>, b: Seq<char>, c: Seq<char>|
            #[trigger] seq_lt(a, b) && #[trigger] seq_lt(b, c) ==> seq_lt(a, c),
{
    assert forall|a: Seq<char>, b: Seq<char>| a != b implies seq_lt(a, b) || seq_lt(b, a) by {
        lemma_seq_lt_pair(a, b);
    }
    assert forall|a: Seq<char>, b: Seq<char>| seq_lt(a, b) implies !seq_lt(b, a) by {
        lemma_seq_lt_pair(a, b);
    }
    assert forall|a: Seq<char>, b: Seq<char>, c: Seq<char>|
        #[trigger] seq_lt(a, b) && #[trigger] seq_lt(b, c) implies seq_lt(a, c) by {
        lemma_seq_lt_trans(a, b, c);
    }
}

} // verus!
