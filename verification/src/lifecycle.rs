//! Dependency resolution and activation ordering for plugins.
use vstd::prelude::*;
use crate::namespaces::{chars_lt, seq_lt};
use crate::text::{chars_of, push_all, push_str, seq_eq, slice_chars, string_from};

verus! {

/// A discovered plugin as activation ordering sees it: its id and the ids it depends on.
#[derive(Debug, Clone)]
pub struct DiscoveredPlugin {
    pub id: String,
    pub depends_on: Vec<String>,
}

impl DiscoveredPlugin {
    /// The plugin's id.
    pub fn plugin_id(&self) -> (r: &str)
        ensures
            r@ == self.id@,
    {
        self.id.as_str()
    }
}

/// Why plugins cannot be activated.
#[derive(Debug, Clone, PartialEq, Eq)]
pub enum LifecycleError {
    Cycle(String),
    MissingDependency(String, String),
}

/// The displayed message of a lifecycle error.
pub open spec fn lifecycle_message(e: LifecycleError) -> Seq<char> {
    match e {
        LifecycleError::Cycle(s) => "plugin dependency cycle involving: "@ + s@,
        LifecycleError::MissingDependency(a, b) => "plugin "@ + a@ + " depends on missing plugin "@ + b@,
    }
}

impl LifecycleError {
    /// The displayed message.
    pub fn message(&self) -> (r: String)
        ensures
            r@ == lifecycle_message(*self),
    {
        match self {
            LifecycleError::Cycle(s) => {
                let mut out = chars_of("plugin dependency cycle involving: ");
                push_str(&mut out, s.as_str());
                string_from(out.as_slice())
            },
            LifecycleError::MissingDependency(a, b) => {
                let mut out = chars_of("plugin ");
                push_str(&mut out, a.as_str());
                push_str(&mut out, " depends on missing plugin ");
                push_str(&mut out, b.as_str());
                string_from(out.as_slice())
            },
        }
    }
}

/// Strings as texts.
pub open spec fn strs_v(v: Seq<String>) -> Seq<Seq<char>> {
    v.map_values(|s: String| s@)
}

/// A plugin as its id and dependency ids.
pub open spec fn plugin_v(p: DiscoveredPlugin) -> (Seq<char>, Seq<Seq<char>>) {
    (p.id@, strs_v(p.depends_on@))
}

pub open spec fn plugins_v(ps: Seq<DiscoveredPlugin>) -> Seq<(Seq<char>, Seq<Seq<char>>)> {
    ps.map_values(|p: DiscoveredPlugin| plugin_v(p))
}

/// First occurrences, in order.
pub open spec fn uniq(s: Seq<Seq<char>>) -> Seq<Seq<char>>
    decreases s.len(),
{
    if s.len() == 0 {
        Seq::empty()
    } else {
        let u = uniq(s.drop_last());
        if u.contains(s.last()) {
            u
        } else {
            u.push(s.last())
        }
    }
}

/// The first dependency in `deps[j..]` that is not among `ids`.
pub open spec fn first_missing(deps: Seq<Seq<char>>, ids: Seq<Seq<char>>, j: int) -> Option<Seq<char>>
    decreases deps.len() - j,
{
    if j < 0 || j >= deps.len() {
        None
    } else if !ids.contains(deps[j]) {
        Some(deps[j])
    } else {
        first_missing(deps, ids, j + 1)
    }
}

/// The first plugin (from `i` on) with a dependency that is not a plugin: its id and that
/// dependency.
pub open spec fn missing_from(ps: Seq<(Seq<char>, Seq<Seq<char>>)>, ids: Seq<Seq<char>>, i: int) -> Option<
    (Seq<char>, Seq<char>),
>
    decreases ps.len() - i,
{
    if i < 0 || i >= ps.len() {
        None
    } else {
        match first_missing(ps[i].1, ids, 0) {
            Some(d) => Some((ps[i].0, d)),
            None => missing_from(ps, ids, i + 1),
        }
    }
}

/// Index of the first occurrence of `x` in `s` (or `s.len()`).
pub open spec fn index_of(s: Seq<Seq<char>>, x: Seq<char>) -> int
    decreases s.len(),
{
    if s.len() == 0 {
        0
    } else if s[0] == x {
        0
    } else {
        1 + index_of(s.drop_first(), x)
    }
}

/// Dependency edges `(dependency, dependent)` over node indices, plugin by plugin, each
/// plugin's distinct dependencies in order.
pub open spec fn edges_of(ps: Seq<(Seq<char>, Seq<Seq<char>>)>, nodes: Seq<Seq<char>>) -> Seq<(int, int)>
    decreases ps.len(),
{
    if ps.len() == 0 {
        Seq::empty()
    } else {
        let p = ps.last();
        edges_of(ps.drop_last(), nodes) + uniq(p.1).map_values(
            |u: Seq<char>| (index_of(nodes, u), index_of(nodes, p.0)),
        )
    }
}

/// Number of edges into node `n`.
pub open spec fn in_count(e: Seq<(int, int)>, n: int) -> int
    decreases e.len(),
{
    if e.len() == 0 {
        0
    } else {
        in_count(e.drop_last(), n) + if e.last().1 == n {
            1int
        } else {
            0int
        }
    }
}

/// Dependents of node `x`, in edge order.
pub open spec fn dependents(e: Seq<(int, int)>, x: int) -> Seq<int>
    decreases e.len(),
{
    if e.len() == 0 {
        Seq::empty()
    } else {
        let d = dependents(e.drop_last(), x);
        if e.last().0 == x {
            d.push(e.last().1)
        } else {
            d
        }
    }
}

/// Insert node `x` into `s` (sorted by name) after the nodes whose names do not sort after it.
pub open spec fn insert_sorted(names: Seq<Seq<char>>, s: Seq<int>, x: int) -> Seq<int>
    decreases s.len(),
{
    if s.len() == 0 {
        seq![x]
    } else if seq_lt(names[x], names[s.last()]) {
        insert_sorted(names, s.drop_last(), x).push(s.last())
    } else {
        s.push(x)
    }
}

/// Nodes sorted by name.
pub open spec fn sort_by_name(names: Seq<Seq<char>>, s: Seq<int>) -> Seq<int>
    decreases s.len(),
{
    if s.len() == 0 {
        Seq::empty()
    } else {
        insert_sorted(names, sort_by_name(names, s.drop_last()), s.last())
    }
}

/// Nodes `0..n` whose count is zero, in order.
pub open spec fn zero_nodes(cnt: Seq<int>, n: int) -> Seq<int>
    decreases n,
{
    if n <= 0 {
        Seq::empty()
    } else if cnt[n - 1] == 0 {
        zero_nodes(cnt, n - 1).push(n - 1)
    } else {
        zero_nodes(cnt, n - 1)
    }
}

/// Activation state: pending queue, the order so far, and remaining in-counts.
pub struct Kahn {
    pub queue: Seq<int>,
    pub order: Seq<int>,
    pub cnt: Seq<int>,
}

/// Lowering the counts of the first `k` dependents of a node: new counts, and the dependents
/// whose count is now zero.
pub open spec fn lower(cnt: Seq<int>, ds: Seq<int>, k: int) -> (Seq<int>, Seq<int>)
    decreases k,
{
    if k <= 0 || k > ds.len() {
        (cnt, Seq::empty())
    } else {
        let (c, next) = lower(cnt, ds, k - 1);
        let y = ds[k - 1];
        let v = if c[y] > 0 {
            c[y] - 1
        } else {
            0
        };
        (c.update(y, v), if v == 0 {
            next.push(y)
        } else {
            next
        })
    }
}

/// One activation: the first queued node is ordered, its dependents' counts lowered, and the
/// ones that reach zero queued in name order.
pub open spec fn kahn_step(names: Seq<Seq<char>>, e: Seq<(int, int)>, st: Kahn) -> Kahn {
    let x = st.queue[0];
    let ds = dependents(e, x);
    let (c, next) = lower(st.cnt, ds, ds.len() as int);
    Kahn { queue: st.queue.drop_first() + sort_by_name(names, next), order: st.order.push(x), cnt: c }
}

/// Up to `fuel` activations.
pub open spec fn kahn_run(names: Seq<Seq<char>>, e: Seq<(int, int)>, st: Kahn, fuel: nat) -> Kahn
    decreases fuel,
{
    if fuel == 0 || st.queue.len() == 0 {
        st
    } else {
        kahn_run(names, e, kahn_step(names, e, st), (fuel - 1) as nat)
    }
}

/// The names of the nodes whose count is still positive, joined by `", "`.
pub open spec fn leftover(names: Seq<Seq<char>>, cnt: Seq<int>, n: int) -> Seq<char>
    decreases n,
{
    if n <= 0 {
        Seq::empty()
    } else {
        let l = leftover(names, cnt, n - 1);
        if cnt[n - 1] > 0 {
            if l.len() == 0 {
                names[n - 1]
            } else {
                l + ", "@ + names[n - 1]
            }
        } else {
            l
        }
    }
}

/// The outcome of `activation_order`: the first missing dependency, or the ids in activation
/// order (seeded and extended in name order, at most one activation per distinct id), or the
/// cycle error naming the ids left with unmet dependencies.
pub enum Activation {
    Missing(Seq<char>, Seq<char>),
    Cycle(Seq<char>),
    Order(Seq<Seq<char>>),
}

/// The plugin ids, in order.
pub open spec fn ids_of(ps: Seq<(Seq<char>, Seq<Seq<char>>)>) -> Seq<Seq<char>> {
    ps.map_values(|p: (Seq<char>, Seq<Seq<char>>)| p.0)
}

pub open spec fn activation(ps: Seq<(Seq<char>, Seq<Seq<char>>)>) -> Activation {
    let ids = ids_of(ps);
    match missing_from(ps, ids, 0) {
        Some((a, b)) => Activation::Missing(a, b),
        None => {
            let nodes = uniq(ids);
            let e = edges_of(ps, nodes);
            let cnt = Seq::new(nodes.len(), |n: int| in_count(e, n));
            let start = Kahn {
                queue: sort_by_name(nodes, zero_nodes(cnt, nodes.len() as int)),
                order: Seq::empty(),
                cnt,
            };
            let fin = kahn_run(nodes, e, start, nodes.len());
            if fin.order.len() != ps.len() {
                Activation::Cycle(leftover(nodes, fin.cnt, nodes.len() as int))
            } else {
                Activation::Order(fin.order.map_values(|i: int| nodes[i]))
            }
        },
    }
}

/// Texts of character vectors.
pub open spec fn cvs(v: Seq<Vec<char>>) -> Seq<Seq<char>> {
    v.map_values(|x: Vec<char>| x@)
}

/// Indices as integers.
pub open spec fn idx(v: Seq<usize>) -> Seq<int> {
    v.map_values(|x: usize| x as int)
}

fn contains_text(v: &Vec<Vec<char>>, x: &[char]) -> (r: bool)
    ensures
        r == cvs(v@).contains(x@),
{
    let mut i: usize = 0;
    while i < v.len()
        invariant
            0 <= i <= v.len(),
            forall|j: int| 0 <= j < i ==> cvs(v@)[j] != x@,
        decreases v.len() - i,
    {
        if seq_eq(v[i].as_slice(), x) {
            assert(cvs(v@)[i as int] == x@);
            return true;
        }
        i += 1;
    }
    false
}

fn uniq_exec(v: &Vec<Vec<char>>) -> (r: Vec<Vec<char>>)
    ensures
        cvs(r@) == uniq(cvs(v@)),
{
    let mut out: Vec<Vec<char>> = Vec::new();
    let mut i: usize = 0;
    assert(cvs(v@).take(0) =~= Seq::<Seq<char>>::empty());
    assert(cvs(out@) =~= Seq::<Seq<char>>::empty());
    while i < v.len()
        invariant
            0 <= i <= v.len(),
            cvs(out@) == uniq(cvs(v@).take(i as int)),
        decreases v.len() - i,
    {
        let ghost before = cvs(out@);
        assert(cvs(v@).take(i + 1).drop_last() =~= cvs(v@).take(i as int));
        assert(cvs(v@).take(i + 1).last() == v@[i as int]@);
        if !contains_text(&out, v[i].as_slice()) {
            let c = slice_chars(v[i].as_slice(), 0, v[i].len());
            assert(c@ =~= v@[i as int]@);
            out.push(c);
            assert(cvs(out@) =~= before.push(v@[i as int]@));
        }
        i += 1;
    }
    assert(cvs(v@).take(v.len() as int) =~= cvs(v@));
    out
}

fn index_exec(s: &Vec<Vec<char>>, x: &[char]) -> (r: usize)
    ensures
        r as int == index_of(cvs(s@), x@),
        r <= s.len(),
{
    let mut i: usize = 0;
    assert(cvs(s@).skip(0) =~= cvs(s@));
    while i < s.len()
        invariant
            0 <= i <= s.len(),
            index_of(cvs(s@), x@) == i + index_of(cvs(s@).skip(i as int), x@),
        decreases s.len() - i,
    {
        assert(cvs(s@).skip(i as int)[0] == s@[i as int]@);
        if seq_eq(s[i].as_slice(), x) {
            return i;
        }
        assert(cvs(s@).skip(i as int).drop_first() =~= cvs(s@).skip(i + 1));
        i += 1;
    }
    i
}

fn texts_of_strings(v: &Vec<String>) -> (r: Vec<Vec<char>>)
    ensures
        cvs(r@) == strs_v(v@),
{
    let mut out: Vec<Vec<char>> = Vec::new();
    let mut i: usize = 0;
    while i < v.len()
        invariant
            0 <= i <= v.len(),
            out@.len() == i,
            forall|j: int| 0 <= j < i ==> (#[trigger] out@[j])@ == v@[j]@,
        decreases v.len() - i,
    {
        out.push(chars_of(v[i].as_str()));
        i += 1;
    }
    assert(cvs(out@) =~= strs_v(v@));
    out
}

fn first_missing_exec(deps: &Vec<Vec<char>>, ids: &Vec<Vec<char>>) -> (r: Option<usize>)
    ensures
        match r {
            Some(j) => j < deps.len() && first_missing(cvs(deps@), cvs(ids@), 0) == Some(deps@[j as int]@),
            None => first_missing(cvs(deps@), cvs(ids@), 0) is None,
        },
{
    let mut j: usize = 0;
    while j < deps.len()
        invariant
            0 <= j <= deps.len(),
            first_missing(cvs(deps@), cvs(ids@), 0) == first_missing(cvs(deps@), cvs(ids@), j as int),
        decreases deps.len() - j,
    {
        if !contains_text(ids, deps[j].as_slice()) {
            return Some(j);
        }
        j += 1;
    }
    None
}

fn insert_sorted_exec(names: &Vec<Vec<char>>, s: &mut Vec<usize>, x: usize)
    requires
        x < names.len(),
        forall|j: int| 0 <= j < old(s)@.len() ==> old(s)@[j] < names.len(),
    ensures
        idx(final(s)@) == insert_sorted(cvs(names@), idx(old(s)@), x as int),
        forall|j: int| 0 <= j < final(s)@.len() ==> final(s)@[j] < names.len(),
{
    let ghost orig = idx(s@);
    let mut k = s.len();
    assert(orig.take(k as int) =~= orig);
    assert(orig.skip(k as int) =~= Seq::<int>::empty());
    assert(insert_sorted(cvs(names@), orig, x as int) + Seq::<int>::empty() =~= insert_sorted(
        cvs(names@),
        orig,
        x as int,
    ));
    while k > 0 && chars_lt(names[x].as_slice(), names[s[k - 1]].as_slice())
        invariant
            k <= s.len(),
            s@ == old(s)@,
            forall|j: int| 0 <= j < s@.len() ==> s@[j] < names.len(),
            x < names.len(),
            orig == idx(s@),
            insert_sorted(cvs(names@), orig, x as int) == insert_sorted(
                cvs(names@),
                orig.take(k as int),
                x as int,
            ) + orig.skip(k as int),
        decreases k,
    {
        proof {
            let t = orig.take(k as int);
            assert(t.drop_last() =~= orig.take(k - 1));
            assert(t.last() == orig[k - 1]);
            assert(seq![orig[k - 1]] + orig.skip(k as int) =~= orig.skip(k - 1));
            assert(insert_sorted(cvs(names@), orig.take(k - 1), x as int).push(orig[k - 1]) + orig.skip(
                k as int,
            ) =~= insert_sorted(cvs(names@), orig.take(k - 1), x as int) + orig.skip(k - 1));
        }
        k -= 1;
    }
    proof {
        let t = orig.take(k as int);
        if k > 0 {
            assert(t.push(x as int) + orig.skip(k as int) =~= orig.take(k as int).push(x as int) + orig.skip(
                k as int,
            ));
        } else {
            assert(t =~= Seq::<int>::empty());
        }
    }
    s.insert(k, x);
    assert(idx(s@) =~= orig.take(k as int).push(x as int) + orig.skip(k as int));
}

fn sort_exec(names: &Vec<Vec<char>>, v: &Vec<usize>) -> (r: Vec<usize>)
    requires
        forall|j: int| 0 <= j < v@.len() ==> v@[j] < names.len(),
    ensures
        idx(r@) == sort_by_name(cvs(names@), idx(v@)),
        forall|j: int| 0 <= j < r@.len() ==> r@[j] < names.len(),
{
    let mut out: Vec<usize> = Vec::new();
    let mut i: usize = 0;
    assert(idx(v@).take(0) =~= Seq::<int>::empty());
    assert(idx(out@) =~= Seq::<int>::empty());
    while i < v.len()
        invariant
            0 <= i <= v.len(),
            forall|j: int| 0 <= j < v@.len() ==> v@[j] < names.len(),
            forall|j: int| 0 <= j < out@.len() ==> out@[j] < names.len(),
            idx(out@) == sort_by_name(cvs(names@), idx(v@).take(i as int)),
        decreases v.len() - i,
    {
        assert(idx(v@).take(i + 1).drop_last() =~= idx(v@).take(i as int));
        assert(idx(v@).take(i + 1).last() == v@[i as int] as int);
        insert_sorted_exec(names, &mut out, v[i]);
        i += 1;
    }
    assert(idx(v@).take(v.len() as int) =~= idx(v@));
    out
}

/// Edges as integer pairs.
pub open spec fn ev(v: Seq<(usize, usize)>) -> Seq<(int, int)> {
    v.map_values(|x: (usize, usize)| (x.0 as int, x.1 as int))
}

pub proof fn lemma_uniq_contains(s: Seq<Seq<char>>, x: Seq<char>)
    ensures
        s.contains(x) ==> uniq(s).contains(x),
        uniq(s).contains(x) ==> s.contains(x),
    decreases s.len(),
{
    if s.len() > 0 {
        lemma_uniq_contains(s.drop_last(), x);
        if s.contains(x) && !s.drop_last().contains(x) {
            let i = choose|i: int| 0 <= i < s.len() && s[i] == x;
            if i < s.len() - 1 {
                assert(s.drop_last()[i] == x);
            }
            assert(s.last() == x);
            let u = uniq(s.drop_last());
            if !u.contains(s.last()) {
                assert(u.push(s.last())[u.len() as int] == x);
            }
        }
        if uniq(s).contains(x) && !uniq(s.drop_last()).contains(x) {
            assert(s[s.len() - 1] == x);
        }
        if s.drop_last().contains(x) {
            let i = choose|i: int| 0 <= i < s.drop_last().len() && s.drop_last()[i] == x;
            assert(s[i] == x);
        }
        if uniq(s.drop_last()).contains(x) {
            let u = uniq(s.drop_last());
            let i = choose|i: int| 0 <= i < u.len() && u[i] == x;
            if !u.contains(s.last()) {
                assert(u.push(s.last())[i] == x);
            }
        }
    }
}

pub proof fn lemma_index_of(s: Seq<Seq<char>>, x: Seq<char>)
    requires
        s.contains(x),
    ensures
        0 <= index_of(s, x) < s.len(),
        s[index_of(s, x)] == x,
    decreases s.len(),
{
    if s[0] != x {
        let i = choose|i: int| 0 <= i < s.len() && s[i] == x;
        assert(s.drop_first()[i - 1] == x);
        lemma_index_of(s.drop_first(), x);
    }
}

pub proof fn lemma_first_missing_none(deps: Seq<Seq<char>>, ids: Seq<Seq<char>>, j: int)
    requires
        0 <= j,
        first_missing(deps, ids, j) is None,
    ensures
        forall|k: int| j <= k < deps.len() ==> ids.contains(#[trigger] deps[k]),
    decreases deps.len() - j,
{
    if j < deps.len() {
        lemma_first_missing_none(deps, ids, j + 1);
    }
}

fn dependents_exec(edges: &Vec<(usize, usize)>, x: usize) -> (r: Vec<usize>)
    ensures
        idx(r@) == dependents(ev(edges@), x as int),
        forall|k: int| 0 <= k < r@.len() ==> exists|j: int| 0 <= j < edges@.len() && edges@[j].1 == #[trigger] r@[k],
{
    let mut out: Vec<usize> = Vec::new();
    let mut j: usize = 0;
    assert(ev(edges@).take(0) =~= Seq::<(int, int)>::empty());
    assert(idx(out@) =~= Seq::<int>::empty());
    while j < edges.len()
        invariant
            0 <= j <= edges.len(),
            idx(out@) == dependents(ev(edges@).take(j as int), x as int),
            forall|k: int| 0 <= k < out@.len() ==> exists|m: int| 0 <= m < edges@.len() && edges@[m].1 == #[trigger] out@[k],
        decreases edges.len() - j,
    {
        assert(ev(edges@).take(j + 1).drop_last() =~= ev(edges@).take(j as int));
        assert(ev(edges@).take(j + 1).last() == (edges@[j as int].0 as int, edges@[j as int].1 as int));
        if edges[j].0 == x {
            let ghost before = out@;
            out.push(edges[j].1);
            assert(idx(out@) =~= idx(before).push(edges@[j as int].1 as int));
            assert(out@[out@.len() - 1] == edges@[j as int].1);
        }
        j += 1;
    }
    assert(ev(edges@).take(edges.len() as int) =~= ev(edges@));
    out
}

/// `activation_order`: the plugin ids ordered so that each comes after the plugins it depends
/// on, starting from the plugins without dependencies in name order; a dependency that is not
/// among the plugins, or a cycle, is an error.
pub fn activation_order(plugins: &[DiscoveredPlugin]) -> (r: Result<Vec<String>, LifecycleError>)
    ensures
        match activation(plugins_v(plugins@)) {
            Activation::Missing(a, b) => r matches Err(LifecycleError::MissingDependency(x, y)) && x@
                == a && y@ == b,
            Activation::Cycle(m) => r matches Err(LifecycleError::Cycle(x)) && x@ == m,
            Activation::Order(o) => r matches Ok(v) && strs_v(v@) == o,
        },
{
    let ghost ps = plugins_v(plugins@);
    let ghost idsv = ids_of(ps);
    let mut ids: Vec<Vec<char>> = Vec::new();
    let mut i: usize = 0;
    while i < plugins.len()
        invariant
            ps == plugins_v(plugins@),
            idsv == ids_of(ps),
            0 <= i <= plugins.len(),
            ids@.len() == i,
            forall|j: int| 0 <= j < i ==> (#[trigger] ids@[j])@ == plugins@[j].id@,
        decreases plugins.len() - i,
    {
        ids.push(chars_of(plugins[i].id.as_str()));
        i += 1;
    }
    assert(cvs(ids@) =~= idsv);
    i = 0;
    while i < plugins.len()
        invariant
            ps == plugins_v(plugins@),
            cvs(ids@) == idsv,
            idsv == ids_of(ps),
            0 <= i <= plugins.len(),
            missing_from(ps, idsv, 0) == missing_from(ps, idsv, i as int),
        decreases plugins.len() - i,
    {
        let d = texts_of_strings(&plugins[i].depends_on);
        assert(ps[i as int] == plugin_v(plugins@[i as int]));
        assert(ps[i as int].1 == cvs(d@));
        match first_missing_exec(&d, &ids) {
            Some(j) => {
                assert(ps[i as int].0 == plugins@[i as int].id@);
                let a = string_from(chars_of(plugins[i].id.as_str()).as_slice());
                let b = string_from(d[j].as_slice());
                return Err(LifecycleError::MissingDependency(a, b));
            },
            None => {},
        }
        i += 1;
    }
    assert(missing_from(ps, idsv, 0) is None);
    let nodes = uniq_exec(&ids);
    let ghost names = cvs(nodes@);
    let n = nodes.len();
    let mut edges: Vec<(usize, usize)> = Vec::new();
    i = 0;
    assert(ps.take(0) =~= Seq::<(Seq<char>, Seq<Seq<char>>)>::empty());
    assert(ev(edges@) =~= Seq::<(int, int)>::empty());
    while i < plugins.len()
        invariant
            ps == plugins_v(plugins@),
            cvs(ids@) == idsv,
            idsv == ids_of(ps),
            names == cvs(nodes@),
            names == uniq(idsv),
            n == nodes.len(),
            0 <= i <= plugins.len(),
            ev(edges@) == edges_of(ps.take(i as int), names),
            forall|k: int| 0 <= k < edges@.len() ==> (#[trigger] edges@[k]).1 < n,
        decreases plugins.len() - i,
    {
        let d = texts_of_strings(&plugins[i].depends_on);
        let u = uniq_exec(&d);
        let idc = chars_of(plugins[i].id.as_str());
        proof {
            assert(ps[i as int] == plugin_v(plugins@[i as int]));
            assert(idsv[i as int] == ps[i as int].0);
            assert(idsv[i as int] == idc@);
            assert(idsv.contains(idc@));
            lemma_uniq_contains(idsv, idc@);
            lemma_index_of(names, idc@);
        }
        let pid = index_exec(&nodes, idc.as_slice());
        let ghost before = ev(edges@);
        let ghost add = cvs(u@).map_values(|w: Seq<char>| (index_of(names, w), index_of(names, idc@)));
        let mut k: usize = 0;
        while k < u.len()
            invariant
                names == cvs(nodes@),
                pid as int == index_of(names, idc@),
                pid < n,
                n == nodes.len(),
                0 <= k <= u.len(),
                add == cvs(u@).map_values(|w: Seq<char>| (index_of(names, w), index_of(names, idc@))),
                ev(edges@) == before + add.take(k as int),
                forall|m: int| 0 <= m < edges@.len() ==> (#[trigger] edges@[m]).1 < n,
            decreases u.len() - k,
        {
            let di = index_exec(&nodes, u[k].as_slice());
            assert(add[k as int] == (di as int, pid as int));
            let ghost eb = ev(edges@);
            edges.push((di, pid));
            assert(ev(edges@) =~= eb.push((di as int, pid as int)));
            assert(add.take(k + 1) =~= add.take(k as int).push(add[k as int]));
            k += 1;
            assert(ev(edges@) =~= before + add.take(k as int));
        }
        proof {
            assert(add.take(u.len() as int) =~= add);
            assert(ps.take(i + 1).drop_last() =~= ps.take(i as int));
            assert(ps.take(i + 1).last() == ps[i as int]);
            assert(ps[i as int].1 == cvs(d@));
            assert(ps[i as int].0 == idc@);
        }
        i += 1;
    }
    assert(ps.take(plugins.len() as int) =~= ps);
    let ghost e = ev(edges@);
    let mut cnt: Vec<usize> = Vec::new();
    let mut m: usize = 0;
    while m < n
        invariant
            0 <= m <= n,
            cnt@.len() == m,
            forall|q: int| 0 <= q < m ==> cnt@[q] == 0,
        decreases n - m,
    {
        cnt.push(0);
        m += 1;
    }
    let mut j: usize = 0;
    assert(e.take(0) =~= Seq::<(int, int)>::empty());
    while j < edges.len()
        invariant
            e == ev(edges@),
            0 <= j <= edges.len(),
            cnt@.len() == n,
            forall|k: int| 0 <= k < edges@.len() ==> (#[trigger] edges@[k]).1 < n,
            forall|q: int| 0 <= q < n ==> #[trigger] cnt@[q] as int == in_count(e.take(j as int), q),
            forall|q: int| 0 <= q < n ==> #[trigger] cnt@[q] <= j,
        decreases edges.len() - j,
    {
        let t = edges[j].1;
        assert(e.take(j + 1).drop_last() =~= e.take(j as int));
        assert(e.take(j + 1).last() == (edges@[j as int].0 as int, edges@[j as int].1 as int));
        let c = cnt[t];
        cnt.set(t, c + 1);
        j += 1;
    }
    assert(e.take(edges.len() as int) =~= e);
    let ghost cnt0 = Seq::new(names.len(), |q: int| in_count(e, q));
    assert(idx(cnt@) =~= cnt0);
    // Seed: nodes without dependencies, in name order.
    let mut zeros: Vec<usize> = Vec::new();
    m = 0;
    assert(idx(zeros@) =~= Seq::<int>::empty());
    while m < n
        invariant
            0 <= m <= n,
            cnt@.len() == n,
            idx(cnt@) == cnt0,
            cnt0.len() == n,
            idx(zeros@) == zero_nodes(cnt0, m as int),
            forall|q: int| 0 <= q < zeros@.len() ==> zeros@[q] < n,
        decreases n - m,
    {
        if cnt[m] == 0 {
            let ghost before = idx(zeros@);
            zeros.push(m);
            assert(idx(zeros@) =~= before.push(m as int));
        }
        m += 1;
    }
    let mut queue = sort_exec(&nodes, &zeros);
    let mut head: usize = 0;
    let mut order: Vec<usize> = Vec::new();
    let ghost start = Kahn { queue: sort_by_name(names, zero_nodes(cnt0, n as int)), order: Seq::empty(), cnt: cnt0 };
    assert(idx(queue@).skip(0) =~= idx(queue@));
    assert(idx(order@) =~= Seq::<int>::empty());
    while head < queue.len() && order.len() < n
        invariant
            names == cvs(nodes@),
            n == nodes.len(),
            e == ev(edges@),
            forall|k: int| 0 <= k < edges@.len() ==> (#[trigger] edges@[k]).1 < n,
            forall|q: int| 0 <= q < queue@.len() ==> queue@[q] < n,
            cnt@.len() == n,
            head <= queue.len(),
            order.len() <= n,
            forall|q: int| 0 <= q < order@.len() ==> order@[q] < n,
            kahn_run(names, e, start, n as nat) == kahn_run(
                names,
                e,
                Kahn { queue: idx(queue@).skip(head as int), order: idx(order@), cnt: idx(cnt@) },
                (n - order.len()) as nat,
            ),
        decreases n - order.len(),
    {
        let ghost st = Kahn { queue: idx(queue@).skip(head as int), order: idx(order@), cnt: idx(cnt@) };
        let x = queue[head];
        head += 1;
        order.push(x);
        let ds = dependents_exec(&edges, x);
        let ghost dsv = idx(ds@);
        let ghost c_before = idx(cnt@);
        let mut next: Vec<usize> = Vec::new();
        let mut k: usize = 0;
        assert(idx(next@) =~= Seq::<int>::empty());
        while k < ds.len()
            invariant
                dsv == idx(ds@),
                forall|q: int| 0 <= q < ds@.len() ==> exists|m: int| 0 <= m < edges@.len() && edges@[m].1 == #[trigger] ds@[q],
                forall|m: int| 0 <= m < edges@.len() ==> (#[trigger] edges@[m]).1 < n,
                cnt@.len() == n,
                0 <= k <= ds.len(),
                (idx(cnt@), idx(next@)) == lower(c_before, dsv, k as int),
                forall|q: int| 0 <= q < next@.len() ==> next@[q] < n,
            decreases ds.len() - k,
        {
            let y = ds[k];
            assert(y < n) by {
                let m = choose|m: int| 0 <= m < edges@.len() && edges@[m].1 == ds@[k as int];
            }
            let c = cnt[y];
            let v = if c > 0 { c - 1 } else { 0 };
            let ghost cb = idx(cnt@);
            cnt.set(y, v);
            assert(idx(cnt@) =~= cb.update(y as int, v as int));
            if v == 0 {
                let ghost nb = idx(next@);
                next.push(y);
                assert(idx(next@) =~= nb.push(y as int));
            }
            k += 1;
        }
        let sorted = sort_exec(&nodes, &next);
        let ghost qb = idx(queue@);
        let mut k2: usize = 0;
        while k2 < sorted.len()
            invariant
                0 <= k2 <= sorted.len(),
                forall|q: int| 0 <= q < sorted@.len() ==> sorted@[q] < n,
                forall|q: int| 0 <= q < queue@.len() ==> queue@[q] < n,
                idx(queue@) == qb + idx(sorted@).take(k2 as int),
            decreases sorted.len() - k2,
        {
            let ghost qq = idx(queue@);
            queue.push(sorted[k2]);
            assert(idx(queue@) =~= qq.push(sorted@[k2 as int] as int));
            assert(idx(sorted@).take(k2 + 1) =~= idx(sorted@).take(k2 as int).push(sorted@[k2 as int] as int));
            k2 += 1;
            assert(idx(queue@) =~= qb + idx(sorted@).take(k2 as int));
        }
        proof {
            assert(idx(sorted@).take(sorted.len() as int) =~= idx(sorted@));
            assert(st.queue[0] == x as int);
            assert(st.queue.drop_first() =~= qb.skip(head as int));
            assert(idx(queue@).skip(head as int) =~= qb.skip(head as int) + idx(sorted@));
            assert(idx(order@) =~= st.order.push(x as int));
        }
    }
    if order.len() != plugins.len() {
        let mut out: Vec<char> = Vec::new();
        m = 0;
        while m < n
            invariant
                0 <= m <= n,
                cnt@.len() == n,
                names == cvs(nodes@),
                n == nodes.len(),
                out@ == leftover(names, idx(cnt@), m as int),
            decreases n - m,
        {
            if cnt[m] > 0 {
                if out.len() > 0 {
                    push_str(&mut out, ", ");
                }
                push_all(&mut out, nodes[m].as_slice());
            }
            m += 1;
        }
        return Err(LifecycleError::Cycle(string_from(out.as_slice())));
    }
    let mut result: Vec<String> = Vec::new();
    let mut k: usize = 0;
    while k < order.len()
        invariant
            0 <= k <= order.len(),
            forall|q: int| 0 <= q < order@.len() ==> order@[q] < n,
            n == nodes.len(),
            names == cvs(nodes@),
            result@.len() == k,
            forall|q: int| 0 <= q < k ==> (#[trigger] result@[q])@ == names[order@[q] as int],
        decreases order.len() - k,
    {
        result.push(string_from(nodes[order[k]].as_slice()));
        k += 1;
    }
    assert(strs_v(result@) =~= idx(order@).map_values(|q: int| names[q]));
    Ok(result)
}

/// Plugin `b` lists `a` among its dependencies.
pub open spec fn depends(ps: Seq<(Seq<char>, Seq<Seq<char>>)>, a: Seq<char>, b: Seq<char>) -> bool {
    exists|i: int, j: int|
        0 <= i < ps.len() && 0 <= j < ps[i].1.len() && ps[i].0 == b && #[trigger] ps[i].1[j] == a
}

/// `path` is a chain of dependents starting from a dependent of `s`.
pub open spec fn dependent_chain(ps: Seq<(Seq<char>, Seq<Seq<char>>)>, s: Seq<char>, path: Seq<Seq<char>>) -> bool {
    &&& path.len() > 0
    &&& depends(ps, s, path[0])
    &&& forall|i: int| 0 <= i < path.len() - 1 ==> depends(ps, #[trigger] path[i], path[i + 1])
}

/// `x` depends on `s` directly or transitively.
pub open spec fn transitive_dependent(ps: Seq<(Seq<char>, Seq<Seq<char>>)>, s: Seq<char>, x: Seq<char>) -> bool {
    exists|path: Seq<Seq<char>>| #[trigger] dependent_chain(ps, s, path) && path.last() == x
}

/// Texts in strictly increasing order.
pub open spec fn strictly_sorted(s: Seq<Seq<char>>) -> bool {
    forall|i: int, j: int| 0 <= i < j < s.len() ==> seq_lt(#[trigger] s[i], #[trigger] s[j])
}

fn copy_chars(v: &Vec<char>) -> (r: Vec<char>)
    ensures
        r@ == v@,
{
    let r = slice_chars(v.as_slice(), 0, v.len());
    assert(r@ =~= v@);
    r
}

pub(crate) fn sort_texts(v: &Vec<Vec<char>>) -> (r: Vec<Vec<char>>)
    requires
        cvs(v@).no_duplicates(),
    ensures
        forall|x: Seq<char>| cvs(r@).contains(x) <==> cvs(v@).contains(x),
        strictly_sorted(cvs(r@)),
{
    proof {
        crate::namespaces::lemma_seq_lt_total();
    }
    let mut out: Vec<Vec<char>> = Vec::new();
    let mut i: usize = 0;
    while i < v.len()
        invariant
            0 <= i <= v.len(),
            cvs(v@).no_duplicates(),
            forall|x: Seq<char>| cvs(out@).contains(x) <==> cvs(v@).take(i as int).contains(x),
            strictly_sorted(cvs(out@)),
            forall|a: Seq<char>, b: Seq<char>| a != b ==> seq_lt(a, b) || seq_lt(b, a),
            forall|a: Seq<char>, b: Seq<char>| seq_lt(a, b) ==> !seq_lt(b, a),
            forall|a: Seq<char>, b: Seq<char>, c: Seq<char>|
                #[trigger] seq_lt(a, b) && #[trigger] seq_lt(b, c) ==> seq_lt(a, c),
        decreases v.len() - i,
    {
        let ghost o = cvs(out@);
        let ghost x = v@[i as int]@;
        assert(!o.contains(x)) by {
            if o.contains(x) {
                let w = cvs(v@).take(i as int);
                let k = choose|k: int| 0 <= k < w.len() && #[trigger] w[k] == x;
                assert(cvs(v@)[k] == cvs(v@)[i as int]);
            }
        }
        let mut k: usize = 0;
        while k < out.len() && chars_lt(out[k].as_slice(), v[i].as_slice())
            invariant
                0 <= k <= out.len(),
                i < v.len(),
                o == cvs(out@),
                x == v@[i as int]@,
                forall|m: int| 0 <= m < k ==> seq_lt(#[trigger] o[m], x),
            decreases out.len() - k,
        {
            k += 1;
        }
        assert(forall|y: Seq<char>| o.contains(y) <==> cvs(v@).take(i as int).contains(y));
        let c = copy_chars(&v[i]);
        out.insert(k, c);
        proof {
            let n = cvs(out@);
            assert(n =~= o.take(k as int).push(x) + o.skip(k as int));
            assert forall|m: int| 0 <= m < n.len() implies #[trigger] n[m] == (if m < k { o[m] } else if m == k { x } else { o[m - 1] }) by {}
            if k < o.len() {
                assert(!seq_lt(o[k as int], x));
                assert(o[k as int] != x);
                assert(seq_lt(x, o[k as int]));
            }
            assert forall|a: int, b: int| 0 <= a < b < n.len() implies seq_lt(#[trigger] n[a], #[trigger] n[b]) by {
                if b < k {
                } else if b == k {
                } else if a < k {
                    if k < o.len() {
                        assert(seq_lt(x, o[k as int]));
                        if b - 1 > k {
                            assert(seq_lt(o[k as int], o[b - 1]));
                        }
                    }
                } else if a == k {
                    if b - 1 > k {
                        assert(seq_lt(o[k as int], o[b - 1]));
                    }
                } else {
                }
            }
            assert forall|y: Seq<char>| n.contains(y) <==> cvs(v@).take(i + 1).contains(y) by {
                assert(cvs(v@).take(i + 1) =~= cvs(v@).take(i as int).push(x));
                let w1 = cvs(v@).take(i + 1);
                let w0 = cvs(v@).take(i as int);
                if n.contains(y) {
                    let m = choose|m: int| 0 <= m < n.len() && n[m] == y;
                    if m != k {
                        if m < k {
                            assert(o[m] == y);
                        } else {
                            assert(o[m - 1] == y);
                        }
                        assert(o.contains(y));
                        assert(w0.contains(y));
                        let q = choose|q: int| 0 <= q < w0.len() && #[trigger] w0[q] == y;
                        assert(w1[q] == y);
                    } else {
                        assert(w1[i as int] == y);
                    }
                }
                if cvs(v@).take(i + 1).contains(y) {
                    if y != x {
                        assert(cvs(v@).take(i as int).contains(y)) by {
                            let w = cvs(v@).take(i + 1);
                            let m = choose|m: int| 0 <= m < w.len() && #[trigger] w[m] == y;
                            assert(cvs(v@).take(i as int)[m] == y);
                        }
                        assert(o.contains(y));
                        let m = choose|m: int| 0 <= m < o.len() && o[m] == y;
                        if m < k {
                            assert(n[m] == y);
                        } else {
                            assert(n[m + 1] == y);
                        }
                    } else {
                        assert(n[k as int] == y);
                    }
                }
            }
        }
        i += 1;
    }
    assert(cvs(v@).take(v.len() as int) =~= cvs(v@));
    out
}

/// Every dependent of `v` is among `o`.
pub open spec fn closed_at(ps: Seq<(Seq<char>, Seq<Seq<char>>)>, v: Seq<char>, o: Seq<Seq<char>>) -> bool {
    forall|x: Seq<char>| depends(ps, v, x) ==> o.contains(x)
}

proof fn lemma_complete(ps: Seq<(Seq<char>, Seq<Seq<char>>)>, s: Seq<char>, o: Seq<Seq<char>>, path: Seq<Seq<char>>, k: int)
    requires
        closed_at(ps, s, o),
        forall|v: Seq<char>| o.contains(v) ==> closed_at(ps, v, o),
        dependent_chain(ps, s, path),
        0 <= k < path.len(),
    ensures
        o.contains(path[k]),
    decreases k,
{
    if k > 0 {
        lemma_complete(ps, s, o, path, k - 1);
        assert(depends(ps, path[k - 1], path[k]));
    }
}

pub(crate) proof fn lemma_reach_step(ps: Seq<(Seq<char>, Seq<Seq<char>>)>, s: Seq<char>, y: Seq<char>, x: Seq<char>)
    requires
        y == s || transitive_dependent(ps, s, y),
        depends(ps, y, x),
    ensures
        transitive_dependent(ps, s, x),
{
    if y == s {
        let path = seq![x];
        assert(dependent_chain(ps, s, path));
    } else {
        let path = choose|path: Seq<Seq<char>>| #[trigger] dependent_chain(ps, s, path) && path.last() == y;
        let p2 = path.push(x);
        assert forall|i: int| 0 <= i < p2.len() - 1 implies depends(ps, #[trigger] p2[i], p2[i + 1]) by {
            if i < path.len() - 1 {
                assert(p2[i] == path[i] && p2[i + 1] == path[i + 1]);
            }
        }
        assert(dependent_chain(ps, s, p2));
        assert(p2.last() == x);
    }
}

pub(crate) proof fn lemma_room(out: Seq<Seq<char>>, ids: Seq<Seq<char>>, x: Seq<char>)
    requires
        out.no_duplicates(),
        forall|y: Seq<char>| out.contains(y) ==> ids.contains(y),
        ids.contains(x),
        !out.contains(x),
    ensures
        out.len() < ids.len(),
{
    out.unique_seq_to_set();
    ids.lemma_cardinality_of_set();
    let a = out.to_set().insert(x);
    assert(a.subset_of(ids.to_set()));
    vstd::set_lib::lemma_len_subset(a, ids.to_set());
}

/// `dependents_of`: the ids of the plugins that depend on `plugin_id` directly or
/// transitively, each once, in sorted order.
pub fn dependents_of(plugins: &[DiscoveredPlugin], plugin_id: &str) -> (r: Vec<String>)
    ensures
        forall|x: Seq<char>| strs_v(r@).contains(x) <==> transitive_dependent(plugins_v(plugins@), plugin_id@, x),
        strictly_sorted(strs_v(r@)),
{
    let ghost ps = plugins_v(plugins@);
    let ghost st = plugin_id@;
    let mut ids: Vec<Vec<char>> = Vec::new();
    let mut dd: Vec<Vec<Vec<char>>> = Vec::new();
    let mut i: usize = 0;
    while i < plugins.len()
        invariant
            ps == plugins_v(plugins@),
            0 <= i <= plugins.len(),
            ids@.len() == i,
            dd@.len() == i,
            forall|j: int| 0 <= j < i ==> (#[trigger] ids@[j])@ == ps[j].0,
            forall|j: int| 0 <= j < i ==> cvs(#[trigger] dd@[j]@) == ps[j].1,
        decreases plugins.len() - i,
    {
        assert(ps[i as int] == plugin_v(plugins@[i as int]));
        ids.push(chars_of(plugins[i].id.as_str()));
        dd.push(texts_of_strings(&plugins[i].depends_on));
        i += 1;
    }
    let mut out: Vec<Vec<char>> = Vec::new();
    let mut stack: Vec<Vec<char>> = Vec::new();
    stack.push(chars_of(plugin_id));
    assert(cvs(out@) =~= Seq::<Seq<char>>::empty());
    assert(cvs(ids@).to_set().finite());
    assert(cvs(stack@)[0] == st);
    while stack.len() > 0
        invariant
            ps == plugins_v(plugins@),
            st == plugin_id@,
            ids@.len() == plugins.len(),
            dd@.len() == plugins.len(),
            forall|j: int| 0 <= j < plugins.len() ==> (#[trigger] ids@[j])@ == ps[j].0,
            forall|j: int| 0 <= j < plugins.len() ==> cvs(#[trigger] dd@[j]@) == ps[j].1,
            cvs(out@).no_duplicates(),
            forall|x: Seq<char>| cvs(out@).contains(x) ==> cvs(ids@).contains(x),
            forall|x: Seq<char>| cvs(out@).contains(x) ==> transitive_dependent(ps, st, x),
            forall|k: int| 0 <= k < stack@.len() ==> (#[trigger] stack@[k])@ == st || cvs(out@).contains(stack@[k]@),
            forall|v: Seq<char>| (v == st || cvs(out@).contains(v)) && !cvs(stack@).contains(v) ==> closed_at(ps, v, cvs(out@)),
            out@.len() <= plugins.len(),
        decreases plugins.len() - out.len(), stack.len(),
    {
        let ghost sb0 = cvs(stack@);
        let cur = stack.pop().unwrap();
        let ghost out0 = cvs(out@);
        let ghost stack1 = cvs(stack@);
        let ghost n0 = out@.len();
        let ghost s1 = stack@.len();
        proof {
            assert(sb0 =~= stack1.push(cur@));
            assert forall|v: Seq<char>| sb0.contains(v) implies stack1.contains(v) || v == cur@ by {
                let m = choose|m: int| 0 <= m < sb0.len() && sb0[m] == v;
                if m < stack1.len() {
                    assert(stack1[m] == v);
                }
            }
            assert(sb0[stack1.len() as int] == cur@);
            assert(sb0.contains(cur@));
        }
        let mut pi: usize = 0;
        while pi < plugins.len()
            invariant
                ps == plugins_v(plugins@),
                st == plugin_id@,
                ids@.len() == plugins.len(),
                dd@.len() == plugins.len(),
                forall|j: int| 0 <= j < plugins.len() ==> (#[trigger] ids@[j])@ == ps[j].0,
                forall|j: int| 0 <= j < plugins.len() ==> cvs(#[trigger] dd@[j]@) == ps[j].1,
                0 <= pi <= plugins.len(),
                cur@ == st || out0.contains(cur@),
                cvs(out@).no_duplicates(),
                forall|x: Seq<char>| out0.contains(x) ==> cvs(out@).contains(x),
                forall|x: Seq<char>| cvs(out@).contains(x) ==> cvs(ids@).contains(x),
                forall|x: Seq<char>| cvs(out@).contains(x) ==> transitive_dependent(ps, st, x),
                forall|k: int| 0 <= k < stack@.len() ==> (#[trigger] stack@[k])@ == st || cvs(out@).contains(stack@[k]@),
                forall|x: Seq<char>| cvs(stack@).contains(x) ==> stack1.contains(x) || cvs(out@).contains(x),
                forall|x: Seq<char>| stack1.contains(x) ==> cvs(stack@).contains(x),
                forall|x: Seq<char>| cvs(out@).contains(x) && !out0.contains(x) ==> cvs(stack@).contains(x),
                forall|v: Seq<char>| (v == st || out0.contains(v)) && !stack1.contains(v) && v != cur@ ==> closed_at(ps, v, out0),
                forall|q: int, j: int| 0 <= q < pi && 0 <= j < ps[q].1.len() && #[trigger] ps[q].1[j] == cur@ ==> cvs(out@).contains(ps[q].0),
                out@.len() <= plugins.len(),
                cvs(out@).len() == out@.len(),
                out@.len() >= n0,
                stack@.len() - s1 == out@.len() - n0,
            decreases plugins.len() - pi,
        {
            let mut di: usize = 0;
            while di < dd[pi].len()
                invariant
                    ps == plugins_v(plugins@),
                    st == plugin_id@,
                    ids@.len() == plugins.len(),
                    dd@.len() == plugins.len(),
                    forall|j: int| 0 <= j < plugins.len() ==> (#[trigger] ids@[j])@ == ps[j].0,
                    forall|j: int| 0 <= j < plugins.len() ==> cvs(#[trigger] dd@[j]@) == ps[j].1,
                    0 <= pi < plugins.len(),
                    0 <= di <= dd@[pi as int].len(),
                    cur@ == st || out0.contains(cur@),
                    cvs(out@).no_duplicates(),
                    forall|x: Seq<char>| out0.contains(x) ==> cvs(out@).contains(x),
                    forall|x: Seq<char>| cvs(out@).contains(x) ==> cvs(ids@).contains(x),
                    forall|x: Seq<char>| cvs(out@).contains(x) ==> transitive_dependent(ps, st, x),
                    forall|k: int| 0 <= k < stack@.len() ==> (#[trigger] stack@[k])@ == st || cvs(out@).contains(stack@[k]@),
                    forall|x: Seq<char>| cvs(stack@).contains(x) ==> stack1.contains(x) || cvs(out@).contains(x),
                    forall|x: Seq<char>| stack1.contains(x) ==> cvs(stack@).contains(x),
                    forall|x: Seq<char>| cvs(out@).contains(x) && !out0.contains(x) ==> cvs(stack@).contains(x),
                    out@.len() <= plugins.len(),
                    cvs(out@).len() == out@.len(),
                    out@.len() >= n0,
                    stack@.len() - s1 == out@.len() - n0,
                    forall|q: int, j: int| 0 <= q < pi && 0 <= j < ps[q].1.len() && #[trigger] ps[q].1[j] == cur@ ==> cvs(out@).contains(ps[q].0),
                    forall|j: int| 0 <= j < di && #[trigger] ps[pi as int].1[j] == cur@ ==> cvs(out@).contains(ps[pi as int].0),
                decreases dd@[pi as int].len() - di,
            {
                assert(cvs(dd@[pi as int]@)[di as int] == dd@[pi as int]@[di as int]@);
                if seq_eq(dd[pi][di].as_slice(), cur.as_slice()) {
                    let idv = ids[pi].as_slice();
                    if !contains_text(&out, idv) {
                        proof {
                            assert(depends(ps, cur@, ps[pi as int].0)) by {
                                assert(ps[pi as int].1[di as int] == cur@);
                            }
                            lemma_reach_step(ps, st, cur@, ps[pi as int].0);
                            assert(cvs(ids@)[pi as int] == ids@[pi as int]@);
                            lemma_room(cvs(out@), cvs(ids@), ids@[pi as int]@);
                        }
                        let ghost ob = cvs(out@);
                        let ghost sb = cvs(stack@);
                        out.push(copy_chars(&ids[pi]));
                        stack.push(copy_chars(&ids[pi]));
                        proof {
                            assert(cvs(out@) =~= ob.push(ids@[pi as int]@));
                            assert(cvs(stack@) =~= sb.push(ids@[pi as int]@));
                            assert forall|x: Seq<char>| cvs(out@).contains(x) implies ob.contains(x) || x == ids@[pi as int]@ by {
                                let m = choose|m: int| 0 <= m < cvs(out@).len() && cvs(out@)[m] == x;
                                if m < ob.len() {
                                    assert(ob[m] == x);
                                }
                            }
                            assert forall|x: Seq<char>| cvs(stack@).contains(x) implies sb.contains(x) || x == ids@[pi as int]@ by {
                                let m = choose|m: int| 0 <= m < cvs(stack@).len() && cvs(stack@)[m] == x;
                                if m < sb.len() {
                                    assert(sb[m] == x);
                                }
                            }
                            assert forall|x: Seq<char>| ob.contains(x) implies cvs(out@).contains(x) by {
                                let m = choose|m: int| 0 <= m < ob.len() && ob[m] == x;
                                assert(cvs(out@)[m] == x);
                            }
                            assert forall|x: Seq<char>| sb.contains(x) implies cvs(stack@).contains(x) by {
                                let m = choose|m: int| 0 <= m < sb.len() && sb[m] == x;
                                assert(cvs(stack@)[m] == x);
                            }
                            assert(cvs(out@)[ob.len() as int] == ids@[pi as int]@);
                            assert(cvs(stack@)[sb.len() as int] == ids@[pi as int]@);
                        }
                    } else {
                        assert(cvs(ids@)[pi as int] == ids@[pi as int]@);
                    }
                }
                di += 1;
            }
            pi += 1;
        }
        proof {
            assert forall|x: Seq<char>| depends(ps, cur@, x) implies cvs(out@).contains(x) by {
                let (q, j) = choose|q: int, j: int|
                    0 <= q < ps.len() && 0 <= j < ps[q].1.len() && ps[q].0 == x && #[trigger] ps[q].1[j] == cur@;
            }
            assert(closed_at(ps, cur@, cvs(out@)));
            assert forall|v: Seq<char>| (v == st || cvs(out@).contains(v)) && !cvs(stack@).contains(v) implies closed_at(ps, v, cvs(out@)) by {
                if v == cur@ {
                } else {
                    if !out0.contains(v) && v != st {
                        assert(cvs(stack@).contains(v));
                    }
                    assert(!stack1.contains(v));
                    assert(closed_at(ps, v, out0));
                    assert forall|x: Seq<char>| depends(ps, v, x) implies cvs(out@).contains(x) by {
                        assert(out0.contains(x));
                    }
                }
            }
        }
    }
    proof {
        assert(cvs(stack@) =~= Seq::<Seq<char>>::empty());
        assert(!cvs(stack@).contains(st));
        assert(closed_at(ps, st, cvs(out@)));
        assert forall|x: Seq<char>| transitive_dependent(ps, st, x) implies cvs(out@).contains(x) by {
            let path = choose|path: Seq<Seq<char>>| #[trigger] dependent_chain(ps, st, path) && path.last() == x;
            lemma_complete(ps, st, cvs(out@), path, path.len() - 1);
        }
    }
    let sorted = sort_texts(&out);
    let mut result: Vec<String> = Vec::new();
    let mut k: usize = 0;
    while k < sorted.len()
        invariant
            0 <= k <= sorted.len(),
            result@.len() == k,
            forall|q: int| 0 <= q < k ==> (#[trigger] result@[q])@ == sorted@[q]@,
        decreases sorted.len() - k,
    {
        result.push(string_from(sorted[k].as_slice()));
        k += 1;
    }
    assert(strs_v(result@) =~= cvs(sorted@));
    result
}

} // verus!
