//! Why `activation_order` is a topological order: the activation queue never releases a
//! plugin before everything it depends on.
use vstd::prelude::*;
use crate::lifecycle::{
    activation, dependent_chain, depends, dependents, edges_of, ids_of, in_count, index_of,
    insert_sorted, kahn_run, kahn_step, lemma_first_missing_none, lemma_index_of,
    lemma_uniq_contains, lower, missing_from, sort_by_name, transitive_dependent, uniq,
    zero_nodes, Kahn, first_missing, Activation,
};
use crate::host::lemma_order_acyclic;
use vstd::set_lib::{lemma_int_range, lemma_len_subset, lemma_subset_equality, set_int_range};

verus! {

/// Number of edges into `n` whose source is not yet in `order`.
pub open spec fn pending_in(e: Seq<(int, int)>, order: Seq<int>, n: int) -> int
    decreases e.len(),
{
    if e.len() == 0 {
        0
    } else {
        pending_in(e.drop_last(), order, n) + if e.last().1 == n && !order.contains(e.last().0) {
            1int
        } else {
            0int
        }
    }
}

/// Number of edges from `x` into `n`.
pub open spec fn edges_between(e: Seq<(int, int)>, x: int, n: int) -> int
    decreases e.len(),
{
    if e.len() == 0 {
        0
    } else {
        edges_between(e.drop_last(), x, n) + if e.last().0 == x && e.last().1 == n {
            1int
        } else {
            0int
        }
    }
}

/// Number of occurrences of `n` in `s`.
pub open spec fn occurrences(s: Seq<int>, n: int) -> int
    decreases s.len(),
{
    if s.len() == 0 {
        0
    } else {
        occurrences(s.drop_last(), n) + if s.last() == n {
            1int
        } else {
            0int
        }
    }
}

proof fn lemma_pending_nonneg(e: Seq<(int, int)>, order: Seq<int>, n: int)
    ensures
        pending_in(e, order, n) >= 0,
    decreases e.len(),
{
    if e.len() > 0 {
        lemma_pending_nonneg(e.drop_last(), order, n);
    }
}

/// Ordering `x` removes exactly its own edges from the pending ones.
proof fn lemma_pending_push(e: Seq<(int, int)>, order: Seq<int>, x: int, n: int)
    requires
        !order.contains(x),
    ensures
        pending_in(e, order.push(x), n) == pending_in(e, order, n) - edges_between(e, x, n),
    decreases e.len(),
{
    if e.len() > 0 {
        lemma_pending_push(e.drop_last(), order, x, n);
        let a = e.last().0;
        assert(order.push(x).contains(a) <==> (order.contains(a) || a == x)) by {
            if order.push(x).contains(a) {
                let i = choose|i: int| 0 <= i < order.push(x).len() && order.push(x)[i] == a;
                if i < order.len() {
                    assert(order[i] == a);
                }
            }
            if order.contains(a) {
                let i = choose|i: int| 0 <= i < order.len() && order[i] == a;
                assert(order.push(x)[i] == a);
            }
            if a == x {
                assert(order.push(x)[order.len() as int] == a);
            }
        }
    }
}

/// The dependents of `x` list each target once per edge.
proof fn lemma_dependents_count(e: Seq<(int, int)>, x: int, n: int)
    ensures
        occurrences(dependents(e, x), n) == edges_between(e, x, n),
    decreases e.len(),
{
    if e.len() > 0 {
        lemma_dependents_count(e.drop_last(), x, n);
        let d = dependents(e.drop_last(), x);
        if e.last().0 == x {
            assert(d.push(e.last().1).drop_last() =~= d);
        }
    }
}

/// No pending edge into `n` means every source of an edge into `n` is ordered.
proof fn lemma_no_pending(e: Seq<(int, int)>, order: Seq<int>, n: int)
    requires
        pending_in(e, order, n) == 0,
    ensures
        forall|k: int| 0 <= k < e.len() && (#[trigger] e[k]).1 == n ==> order.contains(e[k].0),
    decreases e.len(),
{
    if e.len() > 0 {
        lemma_pending_nonneg(e.drop_last(), order, n);
        lemma_no_pending(e.drop_last(), order, n);
        assert forall|k: int| 0 <= k < e.len() && (#[trigger] e[k]).1 == n implies order.contains(e[k].0) by {
            if k < e.len() - 1 {
                assert(e.drop_last()[k] == e[k]);
            }
        }
    }
}

/// Every edge into `n` coming from an ordered node means nothing is pending for `n`.
proof fn lemma_all_sources_ordered(e: Seq<(int, int)>, order: Seq<int>, n: int)
    requires
        forall|k: int| 0 <= k < e.len() && (#[trigger] e[k]).1 == n ==> order.contains(e[k].0),
    ensures
        pending_in(e, order, n) == 0,
    decreases e.len(),
{
    if e.len() > 0 {
        assert forall|k: int| 0 <= k < e.drop_last().len() && (#[trigger] e.drop_last()[k]).1 == n implies order.contains(e.drop_last()[k].0) by {
            assert(e.drop_last()[k] == e[k]);
        }
        lemma_all_sources_ordered(e.drop_last(), order, n);
        assert(e[e.len() - 1] == e.last());
    }
}

/// Before anything is ordered, every edge is pending.
proof fn lemma_pending_initial(e: Seq<(int, int)>, n: int)
    ensures
        pending_in(e, Seq::empty(), n) == in_count(e, n),
    decreases e.len(),
{
    if e.len() > 0 {
        lemma_pending_initial(e.drop_last(), n);
    }
}

proof fn lemma_occurrences_nonneg(s: Seq<int>, n: int)
    ensures
        occurrences(s, n) >= 0,
    decreases s.len(),
{
    if s.len() > 0 {
        lemma_occurrences_nonneg(s.drop_last(), n);
    }
}

proof fn lemma_occurrences_prefix(s: Seq<int>, k: int, n: int)
    requires
        0 <= k <= s.len(),
    ensures
        occurrences(s.take(k), n) <= occurrences(s, n),
    decreases s.len(),
{
    if k == s.len() {
        assert(s.take(k) =~= s);
    } else {
        lemma_occurrences_prefix(s.drop_last(), k, n);
        assert(s.drop_last().take(k) =~= s.take(k));
    }
}

proof fn lemma_occurrences_step(s: Seq<int>, k: int, n: int)
    requires
        0 <= k < s.len(),
    ensures
        occurrences(s.take(k + 1), n) == occurrences(s.take(k), n) + if s[k] == n {
            1int
        } else {
            0int
        },
{
    assert(s.take(k + 1).drop_last() =~= s.take(k));
}

proof fn lemma_occurrences_contains(s: Seq<int>, n: int)
    ensures
        occurrences(s, n) > 0 <==> s.contains(n),
    decreases s.len(),
{
    if s.len() > 0 {
        lemma_occurrences_contains(s.drop_last(), n);
        lemma_occurrences_nonneg(s.drop_last(), n);
        if s.drop_last().contains(n) {
            let i = choose|i: int| 0 <= i < s.drop_last().len() && s.drop_last()[i] == n;
            assert(s[i] == n);
        }
        if s.contains(n) && s.last() != n {
            let i = choose|i: int| 0 <= i < s.len() && s[i] == n;
            assert(s.drop_last()[i] == n);
        }
    }
}

/// Lowering the counts of the first `k` dependents, when no count can run out: each count
/// drops by the number of times its node was listed, and exactly the nodes whose count just
/// reached zero are released, once each.
proof fn lemma_lower(cnt: Seq<int>, ds: Seq<int>, k: int)
    requires
        0 <= k <= ds.len(),
        forall|j: int| 0 <= j < ds.len() ==> 0 <= #[trigger] ds[j] < cnt.len(),
        forall|n: int| 0 <= n < cnt.len() ==> #[trigger] cnt[n] >= occurrences(ds, n),
    ensures
        lower(cnt, ds, k).0.len() == cnt.len(),
        forall|n: int| 0 <= n < cnt.len() ==> #[trigger] lower(cnt, ds, k).0[n] == cnt[n] - occurrences(ds.take(k), n),
        forall|y: int| #[trigger] lower(cnt, ds, k).1.contains(y) <==> (0 <= y < cnt.len() && occurrences(ds.take(k), y) > 0
            && cnt[y] == occurrences(ds.take(k), y)),
        lower(cnt, ds, k).1.no_duplicates(),
    decreases k,
{
    if k == 0 {
        assert(ds.take(0) =~= Seq::<int>::empty());
    } else {
        lemma_lower(cnt, ds, k - 1);
        let (c, next) = lower(cnt, ds, k - 1);
        let y = ds[k - 1];
        lemma_occurrences_prefix(ds, k, y);
        lemma_occurrences_step(ds, k - 1, y);
        assert(c[y] > 0);
        let v = c[y] - 1;
        let c2 = c.update(y, v);
        let next2 = if v == 0 { next.push(y) } else { next };
        assert(lower(cnt, ds, k) == (c2, next2));
        assert forall|n: int| 0 <= n < cnt.len() implies #[trigger] c2[n] == cnt[n] - occurrences(ds.take(k), n) by {
            lemma_occurrences_step(ds, k - 1, n);
        }
        assert forall|z: int| #[trigger] next2.contains(z) <==> (0 <= z < cnt.len() && occurrences(ds.take(k), z) > 0
            && cnt[z] == occurrences(ds.take(k), z)) by {
            lemma_occurrences_step(ds, k - 1, z);
            lemma_occurrences_nonneg(ds.take(k - 1), z);
            if z != y {
                if next2.contains(z) {
                    if v == 0 {
                        let i = choose|i: int| 0 <= i < next2.len() && next2[i] == z;
                        assert(i < next.len());
                        assert(next[i] == z);
                    }
                }
                if next.contains(z) && v == 0 {
                    let i = choose|i: int| 0 <= i < next.len() && next[i] == z;
                    assert(next2[i] == z);
                }
            } else {
                if v == 0 {
                    assert(next2[next.len() as int] == z);
                } else if next2.contains(z) {
                    assert(next.contains(z));
                }
            }
        }
        if v == 0 {
            assert(!next.contains(y));
            assert forall|i: int, j: int| 0 <= i < j < next2.len() implies next2[i] != next2[j] by {
                if j == next.len() {
                    assert(next[i] == next2[i]);
                    assert(next.contains(next2[i]));
                }
            }
        }
    }
}

proof fn lemma_insert_sorted(names: Seq<Seq<char>>, s: Seq<int>, x: int)
    ensures
        insert_sorted(names, s, x).len() == s.len() + 1,
        forall|y: int| #[trigger] insert_sorted(names, s, x).contains(y) <==> (s.contains(y) || y == x),
        s.no_duplicates() && !s.contains(x) ==> insert_sorted(names, s, x).no_duplicates(),
    decreases s.len(),
{
    let r = insert_sorted(names, s, x);
    if s.len() == 0 {
        assert(r[0] == x);
    } else if crate::namespaces::seq_lt(names[x], names[s.last()]) {
        let p = s.drop_last();
        lemma_insert_sorted(names, p, x);
        let q = insert_sorted(names, p, x);
        assert(r == q.push(s.last()));
        assert(s =~= p.push(s.last()));
        assert forall|y: int| #[trigger] r.contains(y) <==> (s.contains(y) || y == x) by {
            if r.contains(y) {
                let i = choose|i: int| 0 <= i < r.len() && r[i] == y;
                if i < q.len() {
                    assert(q[i] == y);
                    assert(q.contains(y));
                    if p.contains(y) {
                        let j = choose|j: int| 0 <= j < p.len() && p[j] == y;
                        assert(s[j] == y);
                        assert(s.contains(y));
                    }
                } else {
                    assert(s[s.len() - 1] == y);
                    assert(s.contains(y));
                }
            }
            if s.contains(y) {
                let i = choose|i: int| 0 <= i < s.len() && s[i] == y;
                if i < p.len() {
                    assert(p[i] == y);
                    assert(q.contains(y));
                    let j = choose|j: int| 0 <= j < q.len() && q[j] == y;
                    assert(r[j] == y);
                } else {
                    assert(r[q.len() as int] == y);
                }
            }
            if y == x {
                assert(q.contains(x));
                let j = choose|j: int| 0 <= j < q.len() && q[j] == x;
                assert(r[j] == x);
            }
        }
        if s.no_duplicates() && !s.contains(x) {
            assert(p.no_duplicates()) by {
                assert forall|i: int, j: int| 0 <= i < j < p.len() implies p[i] != p[j] by {
                    assert(s[i] == p[i] && s[j] == p[j]);
                }
            }
            assert(!p.contains(x)) by {
                if p.contains(x) {
                    let i = choose|i: int| 0 <= i < p.len() && p[i] == x;
                    assert(s[i] == x);
                }
            }
            assert(!q.contains(s.last())) by {
                if q.contains(s.last()) {
                    if p.contains(s.last()) {
                        let i = choose|i: int| 0 <= i < p.len() && p[i] == s.last();
                        assert(s[i] == s[s.len() - 1]);
                    }
                    assert(s.last() != x) by {
                        assert(s[s.len() - 1] == s.last());
                    }
                }
            }
            assert forall|i: int, j: int| 0 <= i < j < r.len() implies r[i] != r[j] by {
                if j == q.len() {
                    assert(r[i] == q[i]);
                } else {
                    assert(r[i] == q[i] && r[j] == q[j]);
                }
            }
        }
    } else {
        assert(r == s.push(x));
        assert forall|y: int| #[trigger] r.contains(y) <==> (s.contains(y) || y == x) by {
            if r.contains(y) {
                let i = choose|i: int| 0 <= i < r.len() && r[i] == y;
                if i < s.len() {
                    assert(s[i] == y);
                }
            }
            if s.contains(y) {
                let i = choose|i: int| 0 <= i < s.len() && s[i] == y;
                assert(r[i] == y);
            }
            if y == x {
                assert(r[s.len() as int] == y);
            }
        }
        if s.no_duplicates() && !s.contains(x) {
            assert forall|i: int, j: int| 0 <= i < j < r.len() implies r[i] != r[j] by {
                if j == s.len() {
                    assert(r[i] == s[i]);
                    assert(s.contains(r[i]));
                }
            }
        }
    }
}

/// Sorting by name keeps exactly the same nodes, each as often.
proof fn lemma_sort_by_name(names: Seq<Seq<char>>, s: Seq<int>)
    ensures
        sort_by_name(names, s).len() == s.len(),
        forall|y: int| #[trigger] sort_by_name(names, s).contains(y) <==> s.contains(y),
        s.no_duplicates() ==> sort_by_name(names, s).no_duplicates(),
    decreases s.len(),
{
    if s.len() > 0 {
        let p = s.drop_last();
        lemma_sort_by_name(names, p);
        let q = sort_by_name(names, p);
        lemma_insert_sorted(names, q, s.last());
        assert(s =~= p.push(s.last()));
        assert forall|y: int| #[trigger] sort_by_name(names, s).contains(y) <==> s.contains(y) by {
            if p.contains(y) {
                let i = choose|i: int| 0 <= i < p.len() && p[i] == y;
                assert(s[i] == y);
            }
            if s.contains(y) && y != s.last() {
                let i = choose|i: int| 0 <= i < s.len() && s[i] == y;
                assert(p[i] == y);
            }
            assert(s[s.len() - 1] == s.last());
        }
        if s.no_duplicates() {
            assert(p.no_duplicates()) by {
                assert forall|i: int, j: int| 0 <= i < j < p.len() implies p[i] != p[j] by {
                    assert(s[i] == p[i] && s[j] == p[j]);
                }
            }
            assert(!q.contains(s.last())) by {
                if p.contains(s.last()) {
                    let i = choose|i: int| 0 <= i < p.len() && p[i] == s.last();
                    assert(s[i] == s[s.len() - 1]);
                }
            }
        }
    }
}

/// Every edge runs between nodes `0..n`.
pub open spec fn edges_within(e: Seq<(int, int)>, n: int) -> bool {
    forall|k: int| 0 <= k < e.len() ==> 0 <= (#[trigger] e[k]).0 < n && 0 <= e[k].1 < n
}

/// Every node of `order` comes after the sources of all its incoming edges.
pub open spec fn sources_first(e: Seq<(int, int)>, order: Seq<int>) -> bool {
    forall|k: int, i: int|
        0 <= k < e.len() && 0 <= i < order.len() && (#[trigger] e[k]).1 == #[trigger] order[i]
            ==> order.take(i).contains(e[k].0)
}

/// What holds of the activation state at every step, over nodes `0..n`: each count is the
/// number of pending edges into its node; ordered and queued nodes are distinct and in range;
/// queued nodes have no pending edge; ordered nodes come after their sources.
pub open spec fn kahn_inv(n: int, e: Seq<(int, int)>, st: Kahn) -> bool {
    &&& st.cnt.len() == n
    &&& forall|m: int| 0 <= m < n ==> #[trigger] st.cnt[m] == pending_in(e, st.order, m)
    &&& st.order.no_duplicates()
    &&& st.queue.no_duplicates()
    &&& forall|i: int, j: int| 0 <= i < st.order.len() && 0 <= j < st.queue.len() ==> #[trigger] st.order[i] != #[trigger] st.queue[j]
    &&& forall|i: int| 0 <= i < st.order.len() ==> 0 <= #[trigger] st.order[i] < n
    &&& forall|j: int| 0 <= j < st.queue.len() ==> 0 <= #[trigger] st.queue[j] < n && st.cnt[st.queue[j]] == 0
    &&& sources_first(e, st.order)
}

proof fn lemma_dependents_in_range(e: Seq<(int, int)>, x: int, n: int)
    requires
        edges_within(e, n),
    ensures
        forall|j: int| 0 <= j < dependents(e, x).len() ==> 0 <= #[trigger] dependents(e, x)[j] < n,
    decreases e.len(),
{
    if e.len() > 0 {
        assert(edges_within(e.drop_last(), n)) by {
            assert forall|k: int| 0 <= k < e.drop_last().len() implies 0 <= (#[trigger] e.drop_last()[k]).0 < n && 0 <= e.drop_last()[k].1 < n by {
                assert(e.drop_last()[k] == e[k]);
            }
        }
        lemma_dependents_in_range(e.drop_last(), x, n);
        assert(e[e.len() - 1] == e.last());
        let d = dependents(e.drop_last(), x);
        if e.last().0 == x {
            assert forall|j: int| 0 <= j < d.push(e.last().1).len() implies 0 <= #[trigger] d.push(e.last().1)[j] < n by {
                if j < d.len() {
                    assert(d.push(e.last().1)[j] == d[j]);
                }
            }
        }
    }
}

/// An ordered node has no pending edge.
proof fn lemma_ordered_settled(e: Seq<(int, int)>, order: Seq<int>, i: int)
    requires
        sources_first(e, order),
        0 <= i < order.len(),
    ensures
        pending_in(e, order, order[i]) == 0,
{
    assert forall|k: int| 0 <= k < e.len() && (#[trigger] e[k]).1 == order[i] implies order.contains(e[k].0) by {
        assert(order.take(i).contains(e[k].0));
        let j = choose|j: int| 0 <= j < order.take(i).len() && order.take(i)[j] == e[k].0;
        assert(order[j] == e[k].0);
    }
    lemma_all_sources_ordered(e, order, order[i]);
}

/// One activation keeps the invariant.
proof fn lemma_kahn_step(names: Seq<Seq<char>>, n: int, e: Seq<(int, int)>, st: Kahn)
    requires
        edges_within(e, n),
        kahn_inv(n, e, st),
        st.queue.len() > 0,
    ensures
        kahn_inv(n, e, kahn_step(names, e, st)),
{
    let x = st.queue[0];
    let order = st.order;
    let cnt = st.cnt;
    let ds = dependents(e, x);
    lemma_dependents_in_range(e, x, n);
    assert(!order.contains(x)) by {
        if order.contains(x) {
            let i = choose|i: int| 0 <= i < order.len() && order[i] == x;
            assert(order[i] != st.queue[0]);
        }
    }
    assert forall|m: int| 0 <= m < cnt.len() implies #[trigger] cnt[m] >= occurrences(ds, m) by {
        lemma_pending_push(e, order, x, m);
        lemma_pending_nonneg(e, order.push(x), m);
        lemma_dependents_count(e, x, m);
    }
    lemma_lower(cnt, ds, ds.len() as int);
    assert(ds.take(ds.len() as int) =~= ds);
    let (c, next) = lower(cnt, ds, ds.len() as int);
    let q1 = st.queue.drop_first();
    let q2 = sort_by_name(names, next);
    lemma_sort_by_name(names, next);
    let nq = q1 + q2;
    let no = order.push(x);
    assert(kahn_step(names, e, st) == Kahn { queue: nq, order: no, cnt: c });
    // counts
    assert forall|m: int| 0 <= m < n implies #[trigger] c[m] == pending_in(e, no, m) by {
        lemma_pending_push(e, order, x, m);
        lemma_dependents_count(e, x, m);
    }
    // released nodes had pending edges from x, so they were neither ordered nor queued
    assert forall|y: int| #[trigger] next.contains(y) implies 0 <= y < n && cnt[y] > 0 && c[y] == 0 && y != x
        && !order.contains(y) && !st.queue.contains(y) by {
        lemma_dependents_count(e, x, y);
        lemma_pending_push(e, order, x, y);
        lemma_pending_nonneg(e, no, y);
        if order.contains(y) {
            let i = choose|i: int| 0 <= i < order.len() && order[i] == y;
            lemma_ordered_settled(e, order, i);
        }
        if st.queue.contains(y) {
            let j = choose|j: int| 0 <= j < st.queue.len() && st.queue[j] == y;
            assert(cnt[st.queue[j]] == 0);
        }
    }
    // queue
    assert forall|j: int| 0 <= j < nq.len() implies 0 <= #[trigger] nq[j] < n && c[nq[j]] == 0 by {
        if j < q1.len() {
            assert(nq[j] == st.queue[j + 1]);
            let q = st.queue[j + 1];
            lemma_pending_push(e, order, x, q);
            lemma_pending_nonneg(e, no, q);
            lemma_dependents_count(e, x, q);
            lemma_occurrences_nonneg(ds, q);
        } else {
            assert(nq[j] == q2[j - q1.len()]);
            assert(q2.contains(nq[j]));
            assert(next.contains(nq[j]));
        }
    }
    assert(nq.no_duplicates()) by {
        assert forall|i: int, j: int| 0 <= i < j < nq.len() implies nq[i] != nq[j] by {
            if j < q1.len() {
                assert(nq[i] == st.queue[i + 1] && nq[j] == st.queue[j + 1]);
            } else if i >= q1.len() {
                assert(nq[i] == q2[i - q1.len()] && nq[j] == q2[j - q1.len()]);
            } else {
                assert(nq[i] == st.queue[i + 1]);
                assert(nq[j] == q2[j - q1.len()]);
                assert(q2.contains(nq[j]));
                assert(next.contains(nq[j]));
                assert(st.queue.contains(nq[i]));
            }
        }
    }
    assert(no.no_duplicates()) by {
        assert forall|i: int, j: int| 0 <= i < j < no.len() implies no[i] != no[j] by {
            if j == order.len() {
                assert(no[i] == order[i]);
                assert(order.contains(no[i]));
            } else {
                assert(no[i] == order[i] && no[j] == order[j]);
            }
        }
    }
    assert forall|i: int, j: int| 0 <= i < no.len() && 0 <= j < nq.len() implies #[trigger] no[i] != #[trigger] nq[j] by {
        if j < q1.len() {
            assert(nq[j] == st.queue[j + 1]);
            if i < order.len() {
                assert(no[i] == order[i]);
            } else {
                assert(no[i] == st.queue[0]);
            }
        } else {
            assert(nq[j] == q2[j - q1.len()]);
            assert(q2.contains(nq[j]));
            assert(next.contains(nq[j]));
            if i < order.len() {
                assert(no[i] == order[i]);
                assert(order.contains(no[i]));
            }
        }
    }
    assert forall|i: int| 0 <= i < no.len() implies 0 <= #[trigger] no[i] < n by {
        if i < order.len() {
            assert(no[i] == order[i]);
        }
    }
    // order
    lemma_no_pending(e, order, x);
    assert forall|k: int, i: int|
        0 <= k < e.len() && 0 <= i < no.len() && (#[trigger] e[k]).1 == #[trigger] no[i] implies no.take(i).contains(e[k].0) by {
        if i < order.len() {
            assert(no[i] == order[i]);
            assert(no.take(i) =~= order.take(i));
        } else {
            assert(no.take(i) =~= order);
        }
    }
}

proof fn lemma_kahn_run(names: Seq<Seq<char>>, n: int, e: Seq<(int, int)>, st: Kahn, fuel: nat)
    requires
        edges_within(e, n),
        kahn_inv(n, e, st),
    ensures
        kahn_inv(n, e, kahn_run(names, e, st, fuel)),
    decreases fuel,
{
    if fuel > 0 && st.queue.len() > 0 {
        lemma_kahn_step(names, n, e, st);
        lemma_kahn_run(names, n, e, kahn_step(names, e, st), (fuel - 1) as nat);
    }
}

proof fn lemma_zero_nodes(cnt: Seq<int>, m: int)
    requires
        m <= cnt.len(),
    ensures
        forall|j: int| 0 <= j < zero_nodes(cnt, m).len() ==> 0 <= #[trigger] zero_nodes(cnt, m)[j] < m
            && cnt[zero_nodes(cnt, m)[j]] == 0,
        zero_nodes(cnt, m).no_duplicates(),
    decreases m,
{
    if m > 0 {
        lemma_zero_nodes(cnt, m - 1);
        let z = zero_nodes(cnt, m - 1);
        if cnt[m - 1] == 0 {
            assert forall|j: int| 0 <= j < z.push(m - 1).len() implies 0 <= #[trigger] z.push(m - 1)[j] < m
                && cnt[z.push(m - 1)[j]] == 0 by {
                if j < z.len() {
                    assert(z.push(m - 1)[j] == z[j]);
                }
            }
            let zp = z.push(m - 1);
            assert forall|i: int, j: int| 0 <= i < j < zp.len() implies zp[i] != zp[j] by {
                assert(zp[i] == z[i]);
                if j < z.len() {
                    assert(zp[j] == z[j]);
                }
            }
        }
    }
}

/// The state the activation queue starts from satisfies the invariant.
proof fn lemma_kahn_start(names: Seq<Seq<char>>, n: nat, e: Seq<(int, int)>)
    ensures
        kahn_inv(
            n as int,
            e,
            Kahn {
                queue: sort_by_name(names, zero_nodes(Seq::new(n, |m: int| in_count(e, m)), n as int)),
                order: Seq::empty(),
                cnt: Seq::new(n, |m: int| in_count(e, m)),
            },
        ),
{
    let cnt = Seq::new(n, |m: int| in_count(e, m));
    let z = zero_nodes(cnt, n as int);
    lemma_zero_nodes(cnt, n as int);
    lemma_sort_by_name(names, z);
    let q = sort_by_name(names, z);
    assert forall|m: int| 0 <= m < n implies #[trigger] cnt[m] == pending_in(e, Seq::empty(), m) by {
        lemma_pending_initial(e, m);
    }
    assert forall|j: int| 0 <= j < q.len() implies 0 <= #[trigger] q[j] < n && cnt[q[j]] == 0 by {
        assert(q.contains(q[j]));
        assert(z.contains(q[j]));
        let i = choose|i: int| 0 <= i < z.len() && z[i] == q[j];
    }
}

proof fn lemma_uniq_distinct(s: Seq<Seq<char>>)
    ensures
        uniq(s).no_duplicates(),
        uniq(s).len() <= s.len(),
    decreases s.len(),
{
    if s.len() > 0 {
        lemma_uniq_distinct(s.drop_last());
        let u = uniq(s.drop_last());
        if !u.contains(s.last()) {
            let up = u.push(s.last());
            assert forall|i: int, j: int| 0 <= i < j < up.len() implies up[i] != up[j] by {
                assert(up[i] == u[i]);
                if j < u.len() {
                    assert(up[j] == u[j]);
                } else {
                    assert(u.contains(u[i]));
                }
            }
        }
    }
}

/// With no missing dependency, every dependency is one of the ids.
proof fn lemma_no_missing(ps: Seq<(Seq<char>, Seq<Seq<char>>)>, ids: Seq<Seq<char>>, i: int)
    requires
        0 <= i,
        missing_from(ps, ids, i) is None,
    ensures
        forall|a: int, b: int| i <= a < ps.len() && 0 <= b < ps[a].1.len() ==> ids.contains(#[trigger] ps[a].1[b]),
    decreases ps.len() - i,
{
    if i < ps.len() {
        lemma_first_missing_none(ps[i].1, ids, 0);
        lemma_no_missing(ps, ids, i + 1);
    }
}

/// The edges join known nodes, and each dependency of each plugin gives an edge.
proof fn lemma_edges_of(ps: Seq<(Seq<char>, Seq<Seq<char>>)>, nodes: Seq<Seq<char>>)
    requires
        forall|a: int| 0 <= a < ps.len() ==> nodes.contains(#[trigger] ps[a].0),
        forall|a: int, b: int| 0 <= a < ps.len() && 0 <= b < ps[a].1.len() ==> nodes.contains(#[trigger] ps[a].1[b]),
    ensures
        edges_within(edges_of(ps, nodes), nodes.len() as int),
        forall|a: int, b: int| 0 <= a < ps.len() && 0 <= b < ps[a].1.len() ==> edges_of(ps, nodes).contains(
            (index_of(nodes, #[trigger] ps[a].1[b]), index_of(nodes, ps[a].0)),
        ),
    decreases ps.len(),
{
    if ps.len() > 0 {
        let pre = ps.drop_last();
        assert forall|a: int| 0 <= a < pre.len() implies nodes.contains(#[trigger] pre[a].0) by {
            assert(pre[a] == ps[a]);
        }
        assert forall|a: int, b: int| 0 <= a < pre.len() && 0 <= b < pre[a].1.len() implies nodes.contains(#[trigger] pre[a].1[b]) by {
            assert(pre[a] == ps[a]);
        }
        lemma_edges_of(pre, nodes);
        let p = ps.last();
        let e0 = edges_of(pre, nodes);
        let u = uniq(p.1);
        let m = u.map_values(|d: Seq<char>| (index_of(nodes, d), index_of(nodes, p.0)));
        let e = edges_of(ps, nodes);
        assert(e == e0 + m);
        assert(nodes.contains(p.0)) by {
            assert(ps[ps.len() - 1] == p);
        }
        lemma_index_of(nodes, p.0);
        assert forall|k: int| 0 <= k < e.len() implies 0 <= (#[trigger] e[k]).0 < nodes.len() && 0 <= e[k].1 < nodes.len() by {
            if k < e0.len() {
                assert(e[k] == e0[k]);
            } else {
                let d = u[k - e0.len()];
                assert(e[k] == m[k - e0.len()]);
                lemma_uniq_contains(p.1, d);
                assert(u.contains(d));
                let b = choose|b: int| 0 <= b < p.1.len() && p.1[b] == d;
                assert(ps[ps.len() - 1].1[b] == d);
                lemma_index_of(nodes, d);
            }
        }
        assert forall|a: int, b: int| 0 <= a < ps.len() && 0 <= b < ps[a].1.len() implies e.contains(
            (index_of(nodes, #[trigger] ps[a].1[b]), index_of(nodes, ps[a].0)),
        ) by {
            let w = (index_of(nodes, ps[a].1[b]), index_of(nodes, ps[a].0));
            if a < pre.len() {
                assert(pre[a] == ps[a]);
                assert(pre[a].1[b] == ps[a].1[b]);
                assert(e0.contains(w));
                let k = choose|k: int| 0 <= k < e0.len() && e0[k] == w;
                assert(e[k] == w);
            } else {
                assert(ps[a] == p);
                let d = p.1[b];
                assert(p.1.contains(d));
                lemma_uniq_contains(p.1, d);
                let t = choose|t: int| 0 <= t < u.len() && u[t] == d;
                assert(m[t] == w);
                assert(e[e0.len() + t] == w);
            }
        }
    }
}

proof fn lemma_index_unique(o: Seq<Seq<char>>, t: int)
    requires
        o.no_duplicates(),
        0 <= t < o.len(),
    ensures
        index_of(o, o[t]) == t,
{
    lemma_index_of(o, o[t]);
}

/// Law: when `activation_order` succeeds, its order lists every plugin id exactly once and
/// places each plugin after every plugin it depends on.
pub proof fn law_activation_order_is_topological(ps: Seq<(Seq<char>, Seq<Seq<char>>)>)
    requires
        activation(ps) is Order,
    ensures
        activation(ps)->Order_0.no_duplicates(),
        activation(ps)->Order_0.len() == ps.len(),
        forall|a: int| 0 <= a < ps.len() ==> activation(ps)->Order_0.contains(#[trigger] ps[a].0),
        forall|a: int, b: int|
            0 <= a < ps.len() && 0 <= b < ps[a].1.len() ==> index_of(activation(ps)->Order_0, #[trigger] ps[a].1[b])
                < index_of(activation(ps)->Order_0, ps[a].0),
{
    let ids = ids_of(ps);
    assert(missing_from(ps, ids, 0) is None);
    let nodes = uniq(ids);
    let n = nodes.len();
    let e = edges_of(ps, nodes);
    let cnt = Seq::new(n, |m: int| in_count(e, m));
    let start = Kahn { queue: sort_by_name(nodes, zero_nodes(cnt, n as int)), order: Seq::empty(), cnt };
    let fin = kahn_run(nodes, e, start, n);
    let order = fin.order;
    let o = order.map_values(|i: int| nodes[i]);
    assert(order.len() == ps.len());
    assert(activation(ps)->Order_0 == o);
    lemma_no_missing(ps, ids, 0);
    assert forall|a: int| 0 <= a < ps.len() implies nodes.contains(#[trigger] ps[a].0) by {
        assert(ids[a] == ps[a].0);
        lemma_uniq_contains(ids, ps[a].0);
    }
    assert forall|a: int, b: int| 0 <= a < ps.len() && 0 <= b < ps[a].1.len() implies nodes.contains(#[trigger] ps[a].1[b]) by {
        lemma_uniq_contains(ids, ps[a].1[b]);
    }
    lemma_edges_of(ps, nodes);
    lemma_kahn_start(nodes, n, e);
    lemma_kahn_run(nodes, n as int, e, start, n);
    lemma_uniq_distinct(ids);
    // the order is a permutation of the nodes
    let os = order.to_set();
    order.unique_seq_to_set();
    let range = set_int_range(0, n as int);
    lemma_int_range(0, n as int);
    assert(os.subset_of(range)) by {
        assert forall|x: int| os.contains(x) implies range.contains(x) by {
            let i = choose|i: int| 0 <= i < order.len() && order[i] == x;
        }
    }
    lemma_len_subset(os, range);
    lemma_subset_equality(os, range);
    assert(o.no_duplicates()) by {
        assert forall|i: int, j: int| 0 <= i < j < o.len() implies o[i] != o[j] by {
            assert(order[i] != order[j]);
            assert(nodes[order[i]] != nodes[order[j]]);
        }
    }
    assert forall|a: int| 0 <= a < ps.len() implies o.contains(#[trigger] ps[a].0) && 0 <= index_of(o, ps[a].0) < o.len()
        && order[index_of(o, ps[a].0)] == index_of(nodes, ps[a].0) by {
        let pn = index_of(nodes, ps[a].0);
        lemma_index_of(nodes, ps[a].0);
        assert(range.contains(pn));
        assert(os.contains(pn));
        let t = choose|t: int| 0 <= t < order.len() && order[t] == pn;
        assert(o[t] == ps[a].0);
        lemma_index_unique(o, t);
    }
    assert forall|a: int, b: int| 0 <= a < ps.len() && 0 <= b < ps[a].1.len() implies index_of(o, #[trigger] ps[a].1[b])
        < index_of(o, ps[a].0) by {
        let d = ps[a].1[b];
        let pn = index_of(nodes, ps[a].0);
        let dn = index_of(nodes, d);
        lemma_index_of(nodes, d);
        assert(o.contains(ps[a].0));
        let t = index_of(o, ps[a].0);
        assert(order[t] == pn);
        assert(e.contains((dn, pn)));
        let k = choose|k: int| 0 <= k < e.len() && e[k] == (dn, pn);
        assert(e[k].1 == order[t]);
        assert(order.take(t).contains(e[k].0));
        let t2 = choose|t2: int| 0 <= t2 < order.take(t).len() && order.take(t)[t2] == dn;
        assert(order[t2] == dn);
        assert(o[t2] == d);
        lemma_index_unique(o, t2);
    }
}

/// Every node with no pending edge that is not ordered yet is queued.
pub open spec fn zeros_queued(n: int, st: Kahn) -> bool {
    forall|m: int| 0 <= m < n && st.cnt[m] == 0 && !st.order.contains(m) ==> #[trigger] st.queue.contains(m)
}

proof fn lemma_zero_nodes_complete(cnt: Seq<int>, k: int, m: int)
    requires
        0 <= m < k <= cnt.len(),
        cnt[m] == 0,
    ensures
        zero_nodes(cnt, k).contains(m),
    decreases k,
{
    if m < k - 1 {
        lemma_zero_nodes_complete(cnt, k - 1, m);
        let z = zero_nodes(cnt, k - 1);
        let i = choose|i: int| 0 <= i < z.len() && z[i] == m;
        if cnt[k - 1] == 0 {
            assert(z.push(k - 1)[i] == m);
        }
    } else {
        let z = zero_nodes(cnt, k - 1);
        assert(z.push(k - 1)[z.len() as int] == m);
    }
}

proof fn lemma_step_zeros_queued(names: Seq<Seq<char>>, n: int, e: Seq<(int, int)>, st: Kahn)
    requires
        edges_within(e, n),
        kahn_inv(n, e, st),
        zeros_queued(n, st),
        st.queue.len() > 0,
    ensures
        zeros_queued(n, kahn_step(names, e, st)),
{
    lemma_kahn_step(names, n, e, st);
    let x = st.queue[0];
    let order = st.order;
    let cnt = st.cnt;
    let ds = dependents(e, x);
    lemma_dependents_in_range(e, x, n);
    assert(!order.contains(x)) by {
        if order.contains(x) {
            let i = choose|i: int| 0 <= i < order.len() && order[i] == x;
            assert(order[i] != st.queue[0]);
        }
    }
    assert forall|m: int| 0 <= m < cnt.len() implies #[trigger] cnt[m] >= occurrences(ds, m) by {
        lemma_pending_push(e, order, x, m);
        lemma_pending_nonneg(e, order.push(x), m);
        lemma_dependents_count(e, x, m);
    }
    lemma_lower(cnt, ds, ds.len() as int);
    assert(ds.take(ds.len() as int) =~= ds);
    let (c, next) = lower(cnt, ds, ds.len() as int);
    let q1 = st.queue.drop_first();
    let q2 = sort_by_name(names, next);
    lemma_sort_by_name(names, next);
    let nq = q1 + q2;
    let no = order.push(x);
    assert(kahn_step(names, e, st) == Kahn { queue: nq, order: no, cnt: c });
    assert forall|m: int| 0 <= m < n && c[m] == 0 && !no.contains(m) implies #[trigger] nq.contains(m) by {
        lemma_occurrences_nonneg(ds, m);
        assert(!order.contains(m)) by {
            if order.contains(m) {
                let i = choose|i: int| 0 <= i < order.len() && order[i] == m;
                assert(no[i] == m);
            }
        }
        assert(m != x) by {
            if m == x {
                assert(no[order.len() as int] == m);
            }
        }
        if cnt[m] == 0 {
            assert(st.queue.contains(m));
            let j = choose|j: int| 0 <= j < st.queue.len() && st.queue[j] == m;
            assert(j != 0);
            assert(nq[j - 1] == m);
        } else {
            assert(next.contains(m));
            assert(q2.contains(m));
            let j = choose|j: int| 0 <= j < q2.len() && q2[j] == m;
            assert(nq[q1.len() + j] == m);
        }
    }
}

/// Running the queue for `fuel` steps either orders `fuel` more nodes or empties the queue,
/// keeping every unqueued zero-count node ordered.
proof fn lemma_kahn_progress(names: Seq<Seq<char>>, n: int, e: Seq<(int, int)>, st: Kahn, fuel: nat)
    requires
        edges_within(e, n),
        kahn_inv(n, e, st),
        zeros_queued(n, st),
    ensures
        kahn_inv(n, e, kahn_run(names, e, st, fuel)),
        zeros_queued(n, kahn_run(names, e, st, fuel)),
        kahn_run(names, e, st, fuel).order.len() == st.order.len() + fuel || kahn_run(names, e, st, fuel).queue.len() == 0,
    decreases fuel,
{
    if fuel > 0 && st.queue.len() > 0 {
        lemma_kahn_step(names, n, e, st);
        lemma_step_zeros_queued(names, n, e, st);
        lemma_kahn_progress(names, n, e, kahn_step(names, e, st), (fuel - 1) as nat);
    }
}

proof fn lemma_pending_source(e: Seq<(int, int)>, order: Seq<int>, m: int)
    requires
        pending_in(e, order, m) > 0,
    ensures
        exists|k: int| 0 <= k < e.len() && (#[trigger] e[k]).1 == m && !order.contains(e[k].0),
    decreases e.len(),
{
    if e.len() > 0 {
        if e.last().1 == m && !order.contains(e.last().0) {
            assert(e[e.len() - 1] == e.last());
        } else {
            lemma_pending_source(e.drop_last(), order, m);
            let k = choose|k: int| 0 <= k < e.drop_last().len() && (#[trigger] e.drop_last()[k]).1 == m
                && !order.contains(e.drop_last()[k].0);
            assert(e[k] == e.drop_last()[k]);
        }
    }
}

/// A pending edge into `m`, from a node that is not ordered yet.
spec fn pending_edge(e: Seq<(int, int)>, order: Seq<int>, m: int) -> int {
    choose|k: int| 0 <= k < e.len() && (#[trigger] e[k]).1 == m && !order.contains(e[k].0)
}

/// A not-yet-ordered source of a pending edge into `m`.
spec fn pending_source(e: Seq<(int, int)>, order: Seq<int>, m: int) -> int {
    e[pending_edge(e, order, m)].0
}

/// `m`, then a pending source of it, then one of that, `k` times.
spec fn back_chain(e: Seq<(int, int)>, order: Seq<int>, m: int, k: nat) -> Seq<int>
    decreases k,
{
    if k == 0 {
        seq![m]
    } else {
        let c = back_chain(e, order, m, (k - 1) as nat);
        c.push(pending_source(e, order, c.last()))
    }
}

/// The queue ran dry with nodes left: every unordered node still has a pending edge.
spec fn stuck(n: int, e: Seq<(int, int)>, order: Seq<int>) -> bool {
    forall|m: int| 0 <= m < n && !order.contains(m) ==> #[trigger] pending_in(e, order, m) > 0
}

proof fn lemma_back_chain(n: int, e: Seq<(int, int)>, order: Seq<int>, m: int, k: nat)
    requires
        edges_within(e, n),
        stuck(n, e, order),
        0 <= m < n,
        !order.contains(m),
    ensures
        back_chain(e, order, m, k).len() == k + 1,
        forall|t: int| 0 <= t <= k ==> 0 <= #[trigger] back_chain(e, order, m, k)[t] < n
            && !order.contains(back_chain(e, order, m, k)[t]),
        forall|t: int| 0 <= t < k ==> e.contains((#[trigger] back_chain(e, order, m, k)[t + 1], back_chain(e, order, m, k)[t])),
    decreases k,
{
    if k > 0 {
        lemma_back_chain(n, e, order, m, (k - 1) as nat);
        let c = back_chain(e, order, m, (k - 1) as nat);
        let y = c.last();
        assert(c[k - 1] == y);
        lemma_pending_source(e, order, y);
        let j = pending_edge(e, order, y);
        assert(0 <= j < e.len() && e[j].1 == y && !order.contains(e[j].0));
        let a = pending_source(e, order, y);
        assert(a == e[j].0);
        let d = c.push(a);
        assert forall|t: int| 0 <= t <= k implies 0 <= #[trigger] d[t] < n && !order.contains(d[t]) by {
            if t < k {
                assert(d[t] == c[t]);
            }
        }
        assert forall|t: int| 0 <= t < k implies e.contains((#[trigger] d[t + 1], d[t])) by {
            if t < k - 1 {
                assert(d[t] == c[t] && d[t + 1] == c[t + 1]);
            } else {
                assert(e[j] == (a, y));
            }
        }
    }
}

/// Among `n + 1` nodes of `0..n`, two are the same.
proof fn lemma_pigeonhole(s: Seq<int>, n: int)
    requires
        0 <= n,
        s.len() == n + 1,
        forall|t: int| 0 <= t < s.len() ==> 0 <= #[trigger] s[t] < n,
    ensures
        exists|i: int, j: int| 0 <= i < j < s.len() && s[i] == s[j],
{
    if !(exists|i: int, j: int| 0 <= i < j < s.len() && s[i] == s[j]) {
        assert(s.no_duplicates()) by {
            assert forall|i: int, j: int| 0 <= i < s.len() && 0 <= j < s.len() && i != j implies s[i] != s[j] by {
                if i < j {
                } else {
                    assert(!(s[j] == s[i]));
                }
            }
        }
        s.unique_seq_to_set();
        lemma_int_range(0, n);
        assert(s.to_set().subset_of(set_int_range(0, n))) by {
            assert forall|x: int| s.to_set().contains(x) implies set_int_range(0, n).contains(x) by {
                let i = choose|i: int| 0 <= i < s.len() && s[i] == x;
            }
        }
        lemma_len_subset(s.to_set(), set_int_range(0, n));
    }
}

/// Every edge comes from a dependency of some plugin.
proof fn lemma_edge_origin(ps: Seq<(Seq<char>, Seq<Seq<char>>)>, nodes: Seq<Seq<char>>, k: int)
    requires
        0 <= k < edges_of(ps, nodes).len(),
    ensures
        exists|a: int, b: int| 0 <= a < ps.len() && 0 <= b < ps[a].1.len() && edges_of(ps, nodes)[k] == (
            index_of(nodes, #[trigger] ps[a].1[b]),
            index_of(nodes, ps[a].0),
        ),
    decreases ps.len(),
{
    let pre = ps.drop_last();
    let e0 = edges_of(pre, nodes);
    let p = ps.last();
    let u = uniq(p.1);
    let m = u.map_values(|d: Seq<char>| (index_of(nodes, d), index_of(nodes, p.0)));
    assert(edges_of(ps, nodes) == e0 + m);
    if k < e0.len() {
        lemma_edge_origin(pre, nodes, k);
        let (a, b) = choose|a: int, b: int| 0 <= a < pre.len() && 0 <= b < pre[a].1.len() && e0[k] == (
            index_of(nodes, #[trigger] pre[a].1[b]),
            index_of(nodes, pre[a].0),
        );
        assert(pre[a] == ps[a]);
        assert(edges_of(ps, nodes)[k] == e0[k]);
    } else {
        let t = k - e0.len();
        let d = u[t];
        assert(u.contains(d));
        lemma_uniq_contains(p.1, d);
        let b = choose|b: int| 0 <= b < p.1.len() && p.1[b] == d;
        assert(ps[ps.len() - 1] == p);
        assert(edges_of(ps, nodes)[k] == m[t]);
        assert(ps[ps.len() - 1].1[b] == d);
    }
}

proof fn lemma_uniq_of_distinct(s: Seq<Seq<char>>)
    requires
        s.no_duplicates(),
    ensures
        uniq(s) == s,
    decreases s.len(),
{
    if s.len() > 0 {
        let p = s.drop_last();
        assert(p.no_duplicates()) by {
            assert forall|i: int, j: int| 0 <= i < j < p.len() implies p[i] != p[j] by {
                assert(p[i] == s[i] && p[j] == s[j]);
            }
        }
        lemma_uniq_of_distinct(p);
        assert(!p.contains(s.last())) by {
            if p.contains(s.last()) {
                let i = choose|i: int| 0 <= i < p.len() && p[i] == s.last();
                assert(s[i] == s[s.len() - 1]);
            }
        }
        assert(p.push(s.last()) =~= s);
    }
}

/// Law: plugins with distinct ids, whose dependencies are all among them and among which no
/// plugin depends on itself, even transitively, always get an activation order.
pub proof fn law_acyclic_plugins_are_ordered(ps: Seq<(Seq<char>, Seq<Seq<char>>)>)
    requires
        ids_of(ps).no_duplicates(),
        missing_from(ps, ids_of(ps), 0) is None,
        forall|x: Seq<char>| !transitive_dependent(ps, x, x),
    ensures
        activation(ps) is Order,
{
    let ids = ids_of(ps);
    lemma_uniq_of_distinct(ids);
    let nodes = uniq(ids);
    assert(nodes == ids);
    let n = nodes.len();
    let e = edges_of(ps, nodes);
    let cnt = Seq::new(n, |m: int| in_count(e, m));
    let start = Kahn { queue: sort_by_name(nodes, zero_nodes(cnt, n as int)), order: Seq::empty(), cnt };
    lemma_no_missing(ps, ids, 0);
    assert forall|a: int| 0 <= a < ps.len() implies nodes.contains(#[trigger] ps[a].0) by {
        assert(ids[a] == ps[a].0);
    }
    lemma_edges_of(ps, nodes);
    lemma_kahn_start(nodes, n, e);
    assert(zeros_queued(n as int, start)) by {
        assert forall|m: int| 0 <= m < n && start.cnt[m] == 0 && !start.order.contains(m) implies #[trigger] start.queue.contains(m) by {
            lemma_zero_nodes_complete(cnt, n as int, m);
            lemma_sort_by_name(nodes, zero_nodes(cnt, n as int));
        }
    }
    lemma_kahn_progress(nodes, n as int, e, start, n);
    let fin = kahn_run(nodes, e, start, n);
    if fin.order.len() != ps.len() {
        // the queue ran dry: some node is left, and following pending edges back from it
        // revisits a node, which is a dependency cycle
        assert(fin.queue.len() == 0);
        let order = fin.order;
        let os = order.to_set();
        order.unique_seq_to_set();
        lemma_int_range(0, n as int);
        assert(os.subset_of(set_int_range(0, n as int))) by {
            assert forall|x: int| os.contains(x) implies set_int_range(0, n as int).contains(x) by {
                let i = choose|i: int| 0 <= i < order.len() && order[i] == x;
            }
        }
        lemma_len_subset(os, set_int_range(0, n as int));
        assert(!set_int_range(0, n as int).subset_of(os)) by {
            if set_int_range(0, n as int).subset_of(os) {
                lemma_len_subset(set_int_range(0, n as int), os);
            }
        }
        let m0 = choose|x: int| set_int_range(0, n as int).contains(x) && !os.contains(x);
        assert(stuck(n as int, e, order)) by {
            assert forall|m: int| 0 <= m < n && !order.contains(m) implies #[trigger] pending_in(e, order, m) > 0 by {
                lemma_pending_nonneg(e, order, m);
                if fin.cnt[m] == 0 {
                    assert(fin.queue.contains(m));
                }
            }
        }
        assert(!order.contains(m0)) by {
            if order.contains(m0) {
                let i = choose|i: int| 0 <= i < order.len() && order[i] == m0;
                assert(os.contains(order[i]));
            }
        }
        lemma_back_chain(n as int, e, order, m0, n);
        let c = back_chain(e, order, m0, n);
        lemma_pigeonhole(c, n as int);
        let (i, j) = choose|i: int, j: int| 0 <= i < j < c.len() && c[i] == c[j];
        let x = nodes[c[j]];
        let path = Seq::new((j - i) as nat, |t: int| nodes[c[j - 1 - t]]);
        assert forall|t: int| 0 <= t < j - i implies depends(ps, nodes[#[trigger] c[t + i + 1]], nodes[c[t + i]]) by {
            {
                let w = (c[t + i + 1], c[t + i]);
                assert(e.contains(w));
                let k = choose|k: int| 0 <= k < e.len() && e[k] == w;
                lemma_edge_origin(ps, nodes, k);
                let (a, b) = choose|a: int, b: int| 0 <= a < ps.len() && 0 <= b < ps[a].1.len() && e[k] == (
                    index_of(nodes, #[trigger] ps[a].1[b]),
                    index_of(nodes, ps[a].0),
                );
                lemma_index_of(nodes, ps[a].1[b]);
                lemma_index_of(nodes, ps[a].0);
            }
        }
        assert(dependent_chain(ps, x, path)) by {
            assert(depends(ps, nodes[c[j]], nodes[c[j - 1]])) by {
                assert(c[(j - 1 - i) + i + 1] == c[j]);
            }
            assert(path[0] == nodes[c[j - 1]]);
            assert forall|t: int| 0 <= t < path.len() - 1 implies depends(ps, #[trigger] path[t], path[t + 1]) by {
                let s = j - 2 - t - i;
                assert(c[s + i + 1] == c[j - 1 - t]);
                assert(path[t] == nodes[c[j - 1 - t]]);
                assert(path[t + 1] == nodes[c[j - 2 - t]]);
            }
        }
        assert(path.last() == x);
        assert(transitive_dependent(ps, x, x));
    }
}


/// Some plugin depends on an id that no plugin has.
pub open spec fn has_missing_dependency(ps: Seq<(Seq<char>, Seq<Seq<char>>)>) -> bool {
    exists|i: int, j: int| 0 <= i < ps.len() && 0 <= j < ps[i].1.len() && !ids_of(ps).contains(#[trigger] ps[i].1[j])
}

proof fn lemma_first_missing_some(deps: Seq<Seq<char>>, ids: Seq<Seq<char>>, j: int)
    requires
        0 <= j,
    ensures
        first_missing(deps, ids, j) matches Some(d) ==> deps.contains(d) && !ids.contains(d),
        (exists|k: int| j <= k < deps.len() && !ids.contains(#[trigger] deps[k])) ==> first_missing(deps, ids, j) is Some,
    decreases deps.len() - j,
{
    if j < deps.len() {
        lemma_first_missing_some(deps, ids, j + 1);
        if !ids.contains(deps[j]) {
            assert(deps.contains(deps[j]));
        }
        if exists|k: int| j <= k < deps.len() && !ids.contains(#[trigger] deps[k]) {
            let k = choose|k: int| j <= k < deps.len() && !ids.contains(#[trigger] deps[k]);
            if k > j {
                assert(exists|k2: int| j + 1 <= k2 < deps.len() && !ids.contains(#[trigger] deps[k2]));
            }
        }
    }
}

proof fn lemma_missing_from(ps: Seq<(Seq<char>, Seq<Seq<char>>)>, i: int)
    requires
        0 <= i,
    ensures
        missing_from(ps, ids_of(ps), i) matches Some((p, d)) ==> exists|a: int|
            i <= a < ps.len() && ps[a].0 == p && ps[a].1.contains(d) && !ids_of(ps).contains(d),
        (exists|a: int, b: int| i <= a < ps.len() && 0 <= b < ps[a].1.len() && !ids_of(ps).contains(#[trigger] ps[a].1[b]))
            ==> missing_from(ps, ids_of(ps), i) is Some,
    decreases ps.len() - i,
{
    if i < ps.len() {
        let ids = ids_of(ps);
        lemma_missing_from(ps, i + 1);
        lemma_first_missing_some(ps[i].1, ids, 0);
        if exists|a: int, b: int| i <= a < ps.len() && 0 <= b < ps[a].1.len() && !ids.contains(#[trigger] ps[a].1[b]) {
            let (a, b) = choose|a: int, b: int| i <= a < ps.len() && 0 <= b < ps[a].1.len() && !ids.contains(#[trigger] ps[a].1[b]);
            if a == i {
                assert(exists|k: int| 0 <= k < ps[i].1.len() && !ids.contains(#[trigger] ps[i].1[k]));
            } else {
                assert(exists|a2: int, b2: int| i + 1 <= a2 < ps.len() && 0 <= b2 < ps[a2].1.len() && !ids.contains(#[trigger] ps[a2].1[b2]));
            }
        }
    }
}

/// Law: `activation_order` refuses with a missing dependency exactly when some plugin
/// depends on an id that no plugin has, naming such a plugin and dependency; with every
/// dependency present and distinct ids, it reports a cycle exactly when some plugin depends
/// on itself, directly or transitively.
pub proof fn law_activation_errors(ps: Seq<(Seq<char>, Seq<Seq<char>>)>)
    ensures
        (activation(ps) is Missing) <==> has_missing_dependency(ps),
        activation(ps) matches Activation::Missing(p, d) ==> exists|a: int|
            0 <= a < ps.len() && ps[a].0 == p && ps[a].1.contains(d) && !ids_of(ps).contains(d),
        ids_of(ps).no_duplicates() && !has_missing_dependency(ps) ==> ((activation(ps) is Cycle) <==> exists|x: Seq<char>|
            transitive_dependent(ps, x, x)),
{
    lemma_missing_from(ps, 0);
    if ids_of(ps).no_duplicates() && !has_missing_dependency(ps) {
        assert(missing_from(ps, ids_of(ps), 0) is None);
        if !exists|x: Seq<char>| transitive_dependent(ps, x, x) {
            law_acyclic_plugins_are_ordered(ps);
        }
        if exists|x: Seq<char>| transitive_dependent(ps, x, x) {
            let x = choose|x: Seq<char>| transitive_dependent(ps, x, x);
            if activation(ps) is Order {
                lemma_order_acyclic(ps);
                assert(!transitive_dependent(ps, x, x));
            }
        }
    }
}

} // verus!
