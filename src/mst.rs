//! Kruskal's algorithm over a full distance matrix.

use vstd::prelude::*;

use crate::connectivity::{lemma_linked_ext, lemma_linked_mono, linked, touches};
use crate::union_set::{
    lemma_join_links, lemma_join_result_roots, lemma_one_class_roots, lemma_roots_finite,
    lemma_singletons_roots, roots, same, UnionSet,
};

verus! {

/// The rows of an adjacency list, as sequences.
pub open spec fn rows(g: Seq<Vec<(usize, u64)>>) -> Seq<Seq<(usize, u64)>> {
    g.map_values(|r: Vec<(usize, u64)>| r@)
}

/// The adjacency lists of the edges `es` over `n` nodes: each edge `(i, j, w)` adds
/// `(j, w)` to the list of `i` and then `(i, w)` to the list of `j`.
pub open spec fn adjacency_of(n: nat, es: Seq<(usize, usize, u64)>) -> Seq<Seq<(usize, u64)>>
    decreases es.len(),
{
    if es.len() == 0 {
        Seq::new(n, |i: int| Seq::<(usize, u64)>::empty())
    } else {
        let g = adjacency_of(n, es.drop_last());
        let e = es.last();
        let g1 = g.update(e.0 as int, g[e.0 as int].push((e.1, e.2)));
        g1.update(e.1 as int, g1[e.1 as int].push((e.0, e.2)))
    }
}

/// Edge `m` of `es` joins `u` and `v` and weighs at most `w`.
pub open spec fn edge_at(es: Seq<(usize, usize, u64)>, m: int, u: int, v: int, w: u64) -> bool {
    &&& 0 <= m < es.len()
    &&& es[m].0 == u
    &&& es[m].1 == v
    &&& es[m].2 <= w
}

/// The edges of `es` that weigh at most `w`.
pub open spec fn edges_upto(es: Seq<(usize, usize, u64)>, w: u64) -> spec_fn(int, int) -> bool {
    |u: int, v: int| exists|m: int| #[trigger] edge_at(es, m, u, v, w)
}

/// The edges of `es` before position `k`.
pub open spec fn edges_before(es: Seq<(usize, usize, u64)>, k: int) -> spec_fn(int, int) -> bool {
    |u: int, v: int| exists|m: int| #[trigger] edge_at(es, m, u, v, u64::MAX) && m < k
}

/// `e` joins two distinct nodes below `n` and weighs what `dist` gives for them.
pub open spec fn edge_from(dist: Seq<Vec<u64>>, n: nat, e: (usize, usize, u64)) -> bool {
    &&& e.0 < n
    &&& e.1 < n
    &&& e.0 != e.1
    &&& e.2 == dist[e.0 as int]@[e.1 as int]
}

/// `ends` names the pair `(a, b)`.
pub open spec fn lists_pair(ends: Seq<(usize, usize)>, a: int, b: int) -> bool {
    exists|k: int| 0 <= k < ends.len() && (#[trigger] ends[k]).0 == a && ends[k].1 == b
}

/// Relies on std's `slice::sort`: it permutes the items into ascending order, and
/// tuples compare lexicographically.
#[verifier::external_body]
fn sort_candidates(v: &mut Vec<(u64, usize)>)
    ensures
        final(v)@.to_multiset() == old(v)@.to_multiset(),
        forall|a: int, b: int| 0 <= a < b < final(v)@.len() ==>
            (final(v)@[a].0 < final(v)@[b].0 || (final(v)@[a].0 == final(v)@[b].0 && final(v)@[a].1 <= final(v)@[b].1)),
{
    v.sort();
}

/// Appends `entry` to the list of node `u`.
fn push_neighbour(graph: &mut Vec<Vec<(usize, u64)>>, u: usize, entry: (usize, u64))
    requires
        u < old(graph)@.len(),
    ensures
        final(graph)@.len() == old(graph)@.len(),
        rows(final(graph)@) == rows(old(graph)@).update(u as int, rows(old(graph)@)[u as int].push(entry)),
{
    let mut row = graph.remove(u);
    row.push(entry);
    graph.insert(u, row);
    assert(rows(graph@) =~= rows(old(graph)@).update(u as int, rows(old(graph)@)[u as int].push(entry)));
}

/// Key `k` is `(weight, k)` and stands for the pair `ends[k]`, whose weight `dist` gives.
pub open spec fn keyed(dist: Seq<Vec<u64>>, n: nat, keys: Seq<(u64, usize)>, ends: Seq<(usize, usize)>, k: int) -> bool {
    &&& keys[k].1 == k
    &&& names_pair(dist, n, ends, keys[k])
}

/// `key` is `(weight, k)` for a pair `ends[k]` of nodes below `n` whose weight `dist` gives.
pub open spec fn names_pair(dist: Seq<Vec<u64>>, n: nat, ends: Seq<(usize, usize)>, key: (u64, usize)) -> bool {
    &&& key.1 < ends.len()
    &&& ends[key.1 as int].0 < n
    &&& ends[key.1 as int].1 < n
    &&& key.0 == dist[ends[key.1 as int].0 as int]@[ends[key.1 as int].1 as int]
}

/// Sorted key `t` stands for the pair `(a, b)` and carries its weight.
pub open spec fn covers(dist: Seq<Vec<u64>>, keys: Seq<(u64, usize)>, ends: Seq<(usize, usize)>, t: int, a: int, b: int) -> bool {
    &&& 0 <= t < keys.len()
    &&& 0 <= keys[t].1 < ends.len()
    &&& ends[keys[t].1 as int].0 == a
    &&& ends[keys[t].1 as int].1 == b
    &&& keys[t].0 == dist[a]@[b]
}

/// Some sorted key stands for the pair `(a, b)`.
pub open spec fn covered(dist: Seq<Vec<u64>>, keys: Seq<(u64, usize)>, ends: Seq<(usize, usize)>, a: int, b: int) -> bool {
    exists|t: int| #[trigger] covers(dist, keys, ends, t, a, b)
}

/// Every ordered pair of nodes, self-pairs included, row by row, with its weight and
/// its position.
fn candidates(dist: &[Vec<u64>], n: usize) -> (r: (Vec<(u64, usize)>, Vec<(usize, usize)>))
    requires
        dist@.len() == n,
        forall|i: int| 0 <= i < n ==> (#[trigger] dist@[i])@.len() == n,
    ensures
        r.0@.len() == r.1@.len(),
        forall|k: int| 0 <= k < r.0@.len() ==> #[trigger] keyed(dist@, n as nat, r.0@, r.1@, k),
        forall|a: int, b: int| 0 <= a < n && 0 <= b < n ==> #[trigger] lists_pair(r.1@, a, b),
{
    let mut keys: Vec<(u64, usize)> = Vec::new();
    let mut ends: Vec<(usize, usize)> = Vec::new();
    let mut i: usize = 0;
    while i < n
        invariant
            i <= n,
            dist@.len() == n,
            forall|x: int| 0 <= x < n ==> (#[trigger] dist@[x])@.len() == n,
            keys@.len() == ends@.len(),
            forall|k: int| 0 <= k < keys@.len() ==> #[trigger] keyed(dist@, n as nat, keys@, ends@, k),
            forall|a: int, b: int| 0 <= a < i && 0 <= b < n ==> #[trigger] lists_pair(ends@, a, b),
        decreases n - i,
    {
        let row = &dist[i];
        let mut j: usize = 0;
        while j < n
            invariant
                i < n,
                j <= n,
                row@ == dist@[i as int]@,
                row@.len() == n,
                dist@.len() == n,
                forall|x: int| 0 <= x < n ==> (#[trigger] dist@[x])@.len() == n,
                keys@.len() == ends@.len(),
                forall|k: int| 0 <= k < keys@.len() ==> #[trigger] keyed(dist@, n as nat, keys@, ends@, k),
                forall|a: int, b: int| 0 <= a < i && 0 <= b < n ==> #[trigger] lists_pair(ends@, a, b),
                forall|b: int| 0 <= b < j ==> #[trigger] lists_pair(ends@, i as int, b),
            decreases n - j,
        {
            let ghost before_keys = keys@;
            let ghost before_ends = ends@;
            let k = keys.len();
            keys.push((row[j], k));
            ends.push((i, j));
            assert forall|q: int| 0 <= q < keys@.len() implies #[trigger] keyed(dist@, n as nat, keys@, ends@, q) by {
                if q < k {
                    assert(keyed(dist@, n as nat, before_keys, before_ends, q));
                }
            }
            assert forall|a: int, b: int| (0 <= a < i && 0 <= b < n) || (a == i && 0 <= b <= j) implies #[trigger] lists_pair(ends@, a, b) by {
                if a == i && b == j {
                    assert(ends@[k as int] == (i, j));
                } else {
                    assert(lists_pair(before_ends, a, b));
                    let q = choose|q: int| 0 <= q < before_ends.len() && (#[trigger] before_ends[q]).0 == a && before_ends[q].1 == b;
                    assert(ends@[q] == before_ends[q]);
                }
            }
            j = j + 1;
        }
        i = i + 1;
    }
    (keys, ends)
}

/// Kruskal's algorithm on the complete graph whose weights `dist` gives: the
/// accepted edges and their adjacency lists. The edges come in ascending order of
/// weight; none closes a cycle with the edges before it; for `n > 0` there are
/// `n - 1` of them and they connect every pair of nodes; and every pair `(a, b)` is
/// connected through edges no heavier than `dist[a][b]`, which makes the tree a
/// minimum spanning tree.
pub fn build_mst(dist: &[Vec<u64>], n: usize) -> (r: (Vec<(usize, usize, u64)>, Vec<Vec<(usize, u64)>>))
    requires
        dist@.len() == n,
        forall|i: int| 0 <= i < n ==> (#[trigger] dist@[i])@.len() == n,
    ensures
        r.0@.len() == if n == 0 { 0 } else { n - 1 },
        forall|m: int| 0 <= m < r.0@.len() ==> edge_from(dist@, n as nat, #[trigger] r.0@[m]),
        forall|m: int| 0 <= m < r.0@.len() ==> (#[trigger] r.0@[m]).2 <= dist@[r.0@[m].1 as int]@[r.0@[m].0 as int],
        forall|a: int, b: int| 0 <= a < b < r.0@.len() ==> r.0@[a].2 <= r.0@[b].2,
        forall|m: int| 0 <= m < r.0@.len() ==>
            !linked(edges_before(r.0@, m), (#[trigger] r.0@[m]).0 as int, r.0@[m].1 as int),
        forall|a: int, b: int| 0 <= a < n && 0 <= b < n ==> #[trigger] linked(edges_upto(r.0@, u64::MAX), a, b),
        forall|a: int, b: int| 0 <= a < n && 0 <= b < n ==> #[trigger] linked(edges_upto(r.0@, dist@[a]@[b]), a, b),
        rows(r.1@) == adjacency_of(n as nat, r.0@),
{
    let (mut keys, ends) = candidates(dist, n);
    let ghost unsorted = keys@;
    sort_candidates(&mut keys);
    proof {
        unsorted.to_multiset_ensures();
        keys@.to_multiset_ensures();
        assert forall|t: int| 0 <= t < keys@.len() implies names_pair(dist@, n as nat, ends@, #[trigger] keys@[t]) by {
            assert(keys@.contains(keys@[t]));
            assert(unsorted.to_multiset().count(keys@[t]) > 0);
            assert(unsorted.contains(keys@[t]));
            let k = choose|k: int| 0 <= k < unsorted.len() && unsorted[k] == keys@[t];
            assert(keyed(dist@, n as nat, unsorted, ends@, k));
        }
    }
    proof {
        assert forall|a: int, b: int| 0 <= a < n && 0 <= b < n implies
            #[trigger] covered(dist@, keys@, ends@, a, b) by {
            assert(lists_pair(ends@, a, b));
            let k = choose|k: int| 0 <= k < ends@.len() && (#[trigger] ends@[k]).0 == a && ends@[k].1 == b;
            assert(keyed(dist@, n as nat, unsorted, ends@, k));
            assert(unsorted.contains(unsorted[k]));
            assert(keys@.to_multiset().count(unsorted[k]) > 0);
            let t = choose|t: int| 0 <= t < keys@.len() && keys@[t] == unsorted[k];
            assert(covers(dist@, keys@, ends@, t, a, b));
        }
    }
    let mut ds = UnionSet::new(n);
    let mut acc: Vec<(usize, usize, u64)> = Vec::new();
    let mut graph: Vec<Vec<(usize, u64)>> = Vec::new();
    let mut x: usize = 0;
    while x < n
        invariant
            x <= n,
            graph@.len() == x,
            rows(graph@) == Seq::new(x as nat, |i: int| Seq::<(usize, u64)>::empty()),
        decreases n - x,
    {
        let row: Vec<(usize, u64)> = Vec::new();
        let ghost prev = graph@;
        graph.push(row);
        assert forall|i: int| 0 <= i < x + 1 implies #[trigger] graph@[i]@ == Seq::<(usize, u64)>::empty() by {
            if i < x {
                assert(graph@[i] == prev[i]);
                assert(rows(prev)[i] == prev[i]@);
            }
        }
        assert(rows(graph@) =~= Seq::new(x as nat + 1, |i: int| Seq::<(usize, u64)>::empty()));
        x = x + 1;
    }
    proof {
        assert(rows(graph@) =~= adjacency_of(n as nat, acc@));
        lemma_singletons_roots(n as nat);
        assert forall|a: int, b: int| 0 <= a < n && 0 <= b < n implies
            (same(ds@, a, b) <==> linked(edges_upto(acc@, u64::MAX), a, b)) by {
            if a == b {
                crate::connectivity::lemma_linked_refl(edges_upto(acc@, u64::MAX), a);
            }
            if linked(edges_upto(acc@, u64::MAX), a, b) {
                let label = |u: int| u;
                assert forall|u: int, v: int| #[trigger] edges_upto(acc@, u64::MAX)(u, v) implies label(u) == label(v) by {
                    let m = choose|m: int| #[trigger] edge_at(acc@, m, u, v, u64::MAX);
                }
                crate::connectivity::lemma_linked_keeps_label(edges_upto(acc@, u64::MAX), label, a, b);
            }
        }
    }
    let mut s: usize = 0;
    while s < keys.len()
        invariant
            s <= keys@.len(),
            dist@.len() == n,
            forall|i: int| 0 <= i < n ==> (#[trigger] dist@[i])@.len() == n,
            forall|t: int| 0 <= t < keys@.len() ==> names_pair(dist@, n as nat, ends@, #[trigger] keys@[t]),
            forall|a: int, b: int| 0 <= a < b < keys@.len() ==>
                (keys@[a].0 < keys@[b].0 || (keys@[a].0 == keys@[b].0 && keys@[a].1 <= keys@[b].1)),
            ds.wf(),
            ds.len() == n,
            graph@.len() == n,
            rows(graph@) == adjacency_of(n as nat, acc@),
            roots(ds@).finite(),
            acc@.len() + roots(ds@).len() == n,
            forall|a: int, b: int| 0 <= a < n && 0 <= b < n ==>
                (same(ds@, a, b) <==> linked(edges_upto(acc@, u64::MAX), a, b)),
            forall|m: int| 0 <= m < acc@.len() ==> edge_from(dist@, n as nat, #[trigger] acc@[m]),
            forall|a: int, b: int| 0 <= a < b < acc@.len() ==> acc@[a].2 <= acc@[b].2,
            forall|m: int, t: int| 0 <= m < acc@.len() && s <= t < keys@.len() ==> acc@[m].2 <= keys@[t].0,
            forall|m: int| 0 <= m < acc@.len() ==>
                !linked(edges_before(acc@, m), (#[trigger] acc@[m]).0 as int, acc@[m].1 as int),
            forall|t: int| 0 <= t < s ==> linked(edges_upto(acc@, keys@[t].0),
                ends@[keys@[t].1 as int].0 as int, ends@[keys@[t].1 as int].1 as int),
            forall|a: int, b: int| 0 <= a < n && 0 <= b < n ==>
                #[trigger] covered(dist@, keys@, ends@, a, b),
        decreases keys@.len() - s,
    {
        let (w, k) = keys[s];
        let (a, b) = ends[k];
        assert(names_pair(dist@, n as nat, ends@, keys@[s as int]));
        let fa = ds.find(a);
        let fb = ds.find(b);
        let ghost before = ds@;
        let ghost before_sizes = ds.sizes();
        let ghost old_acc = acc@;
        let ghost old_graph = rows(graph@);
        proof {
            ds.lemma_reps_ok();
            assert(ds.wf());
        }
        if fa != fb {
            acc.push((a, b, w));
            push_neighbour(&mut graph, a, (b, w));
            push_neighbour(&mut graph, b, (a, w));
            ds.join(a, b);
            proof {
                let adj = edges_upto(old_acc, u64::MAX);
                let adj2 = edges_upto(acc@, u64::MAX);
                assert(acc@.drop_last() =~= old_acc);
                assert forall|m: int| 0 <= m < acc@.len() implies edge_from(dist@, n as nat, #[trigger] acc@[m]) by {
                    if m < old_acc.len() {
                        assert(edge_from(dist@, n as nat, old_acc[m]));
                    }
                }
                assert forall|u: int, v: int| #[trigger] adj(u, v) implies 0 <= u < n && 0 <= v < n by {
                    let m = choose|m: int| #[trigger] edge_at(old_acc, m, u, v, u64::MAX);
                    assert(edge_from(dist@, n as nat, old_acc[m]));
                }
                assert forall|u: int, v: int| #[trigger] adj2(u, v) <==> (adj(u, v) || (u == a && v == b)) by {
                    if adj2(u, v) {
                        let m = choose|m: int| #[trigger] edge_at(acc@, m, u, v, u64::MAX);
                        if m < old_acc.len() {
                            assert(edge_at(old_acc, m, u, v, u64::MAX));
                        }
                    }
                    if adj(u, v) {
                        let m = choose|m: int| #[trigger] edge_at(old_acc, m, u, v, u64::MAX);
                        assert(edge_at(acc@, m, u, v, u64::MAX));
                    }
                    if u == a && v == b {
                        assert(edge_at(acc@, old_acc.len() as int, u, v, u64::MAX));
                    }
                }
                lemma_join_links(adj, adj2, before, ds@, n as nat, a as int, b as int);
                lemma_join_result_roots(before, before_sizes, n as nat, a as int, b as int);
                lemma_roots_finite(ds@);
                assert(rows(graph@) =~= adjacency_of(n as nat, acc@));
                assert forall|m: int| 0 <= m < acc@.len() implies
                    !linked(edges_before(acc@, m), (#[trigger] acc@[m]).0 as int, acc@[m].1 as int) by {
                    if m < old_acc.len() {
                        assert forall|u: int, v: int| #[trigger] edges_before(acc@, m)(u, v) <==> edges_before(old_acc, m)(u, v) by {
                            if edges_before(acc@, m)(u, v) {
                                let q = choose|q: int| #[trigger] edge_at(acc@, q, u, v, u64::MAX) && q < m;
                                assert(edge_at(old_acc, q, u, v, u64::MAX));
                            }
                            if edges_before(old_acc, m)(u, v) {
                                let q = choose|q: int| #[trigger] edge_at(old_acc, q, u, v, u64::MAX) && q < m;
                                assert(edge_at(acc@, q, u, v, u64::MAX));
                            }
                        }
                        lemma_linked_ext(edges_before(acc@, m), edges_before(old_acc, m));
                        assert(acc@[m] == old_acc[m]);
                    } else {
                        assert forall|u: int, v: int| #[trigger] edges_before(acc@, m)(u, v) <==> adj(u, v) by {
                            if edges_before(acc@, m)(u, v) {
                                let q = choose|q: int| #[trigger] edge_at(acc@, q, u, v, u64::MAX) && q < m;
                                assert(edge_at(old_acc, q, u, v, u64::MAX));
                            }
                            if adj(u, v) {
                                let q = choose|q: int| #[trigger] edge_at(old_acc, q, u, v, u64::MAX);
                                assert(edge_at(acc@, q, u, v, u64::MAX));
                            }
                        }
                        lemma_linked_ext(edges_before(acc@, m), adj);
                        assert(acc@[m] == (a, b, w));
                        assert(!same(before, a as int, b as int));
                        assert(!linked(adj, a as int, b as int));
                    }
                }
                assert forall|t: int| 0 <= t < s + 1 implies linked(edges_upto(acc@, keys@[t].0),
                    ends@[keys@[t].1 as int].0 as int, ends@[keys@[t].1 as int].1 as int) by {
                    let wt = keys@[t].0;
                    if t < s {
                        assert forall|u: int, v: int| #[trigger] edges_upto(old_acc, wt)(u, v) implies edges_upto(acc@, wt)(u, v) by {
                            let q = choose|q: int| #[trigger] edge_at(old_acc, q, u, v, wt);
                            assert(edge_at(acc@, q, u, v, wt));
                        }
                        lemma_linked_mono(edges_upto(old_acc, wt), edges_upto(acc@, wt),
                            ends@[keys@[t].1 as int].0 as int, ends@[keys@[t].1 as int].1 as int);
                    } else {
                        assert(same(ds@, a as int, b as int));
                        assert forall|u: int, v: int| #[trigger] adj2(u, v) implies edges_upto(acc@, wt)(u, v) by {
                            let q = choose|q: int| #[trigger] edge_at(acc@, q, u, v, u64::MAX);
                            if q < old_acc.len() {
                                assert(acc@[q] == old_acc[q]);
                            }
                            assert(edge_at(acc@, q, u, v, wt));
                        }
                        lemma_linked_mono(adj2, edges_upto(acc@, wt), a as int, b as int);
                    }
                }
            }
        } else {
            proof {
                let adj = edges_upto(acc@, u64::MAX);
                assert(same(before, a as int, b as int));
                assert forall|u: int, v: int| #[trigger] adj(u, v) implies edges_upto(acc@, w)(u, v) by {
                    let q = choose|q: int| #[trigger] edge_at(acc@, q, u, v, u64::MAX);
                    assert(edge_at(acc@, q, u, v, w));
                }
                lemma_linked_mono(adj, edges_upto(acc@, w), a as int, b as int);
            }
        }
        s = s + 1;
    }
    proof {
        lemma_roots_finite(ds@);
        assert forall|a: int, b: int| 0 <= a < n && 0 <= b < n implies
            #[trigger] linked(edges_upto(acc@, dist@[a]@[b]), a, b) by {
            assert(s == keys@.len());
            assert(covered(dist@, keys@, ends@, a, b));
            let t = choose|t: int| #[trigger] covers(dist@, keys@, ends@, t, a, b);
        }
        assert forall|a: int, b: int| 0 <= a < n && 0 <= b < n implies
            #[trigger] linked(edges_upto(acc@, u64::MAX), a, b) by {
            assert(linked(edges_upto(acc@, dist@[a]@[b]), a, b));
            assert forall|u: int, v: int| #[trigger] edges_upto(acc@, dist@[a]@[b])(u, v) implies edges_upto(acc@, u64::MAX)(u, v) by {
                let q = choose|q: int| #[trigger] edge_at(acc@, q, u, v, dist@[a]@[b]);
                assert(edge_at(acc@, q, u, v, u64::MAX));
            }
            lemma_linked_mono(edges_upto(acc@, dist@[a]@[b]), edges_upto(acc@, u64::MAX), a, b);
        }
        assert forall|a: int, b: int| 0 <= a < n && 0 <= b < n implies #[trigger] same(ds@, a, b) by {
            assert(linked(edges_upto(acc@, u64::MAX), a, b));
        }
        if n > 0 {
            ds.lemma_reps_ok();
            lemma_one_class_roots(ds@, n as nat);
        }
        assert forall|m: int| 0 <= m < acc@.len() implies
            (#[trigger] acc@[m]).2 <= dist@[acc@[m].1 as int]@[acc@[m].0 as int] by {
            let e = acc@[m];
            assert(edge_from(dist@, n as nat, e));
            let back = dist@[e.1 as int]@[e.0 as int];
            if back < e.2 {
                assert(linked(edges_upto(acc@, back), e.1 as int, e.0 as int));
                assert forall|u: int, v: int| #[trigger] edges_upto(acc@, back)(u, v) implies edges_before(acc@, m)(u, v) by {
                    let q = choose|q: int| #[trigger] edge_at(acc@, q, u, v, back);
                    if q >= m {
                        assert(acc@[m].2 <= acc@[q].2);
                    }
                    assert(edge_at(acc@, q, u, v, u64::MAX));
                }
                lemma_linked_mono(edges_upto(acc@, back), edges_before(acc@, m), e.1 as int, e.0 as int);
                crate::connectivity::lemma_linked_symm(edges_before(acc@, m), e.1 as int, e.0 as int);
            }
        }
    }
    (acc, graph)
}

/// Node `u`'s list in `rs` holds `v` with a weight of at most `w`.
pub open spec fn has_entry(rs: Seq<Seq<(usize, u64)>>, u: int, v: int, w: u64) -> bool {
    &&& 0 <= u < rs.len()
    &&& exists|m: int| 0 <= m < rs[u].len() && (#[trigger] rs[u][m]).0 == v && rs[u][m].1 <= w
}

/// Every edge of `es` joins nodes below `n`.
pub open spec fn ends_below(es: Seq<(usize, usize, u64)>, n: nat) -> bool {
    forall|k: int| 0 <= k < es.len() ==> (#[trigger] es[k]).0 < n && es[k].1 < n
}

/// The adjacency lists of `es` list exactly the edges of `es`, from both ends.
pub proof fn lemma_adjacency_entries(n: nat, es: Seq<(usize, usize, u64)>, w: u64)
    requires
        ends_below(es, n),
    ensures
        adjacency_of(n, es).len() == n,
        forall|u: int, v: int| #[trigger] has_entry(adjacency_of(n, es), u, v, w) <==> touches(edges_upto(es, w), u, v),
    decreases es.len(),
{
    let g2 = adjacency_of(n, es);
    if es.len() == 0 {
        assert forall|u: int, v: int| #[trigger] has_entry(g2, u, v, w) <==> touches(edges_upto(es, w), u, v) by {
            if edges_upto(es, w)(u, v) {
                let m = choose|m: int| #[trigger] edge_at(es, m, u, v, w);
            }
            if edges_upto(es, w)(v, u) {
                let m = choose|m: int| #[trigger] edge_at(es, m, v, u, w);
            }
        }
    } else {
        let prev = es.drop_last();
        let e = es.last();
        assert(ends_below(prev, n)) by {
            assert forall|k: int| 0 <= k < prev.len() implies (#[trigger] prev[k]).0 < n && prev[k].1 < n by {
                assert(prev[k] == es[k]);
            }
        }
        assert(es[es.len() - 1] == e);
        lemma_adjacency_entries(n, prev, w);
        let g = adjacency_of(n, prev);
        let g1 = g.update(e.0 as int, g[e.0 as int].push((e.1, e.2)));
        assert forall|u: int, v: int| #[trigger] has_entry(g2, u, v, w) <==> touches(edges_upto(es, w), u, v) by {
            let fresh = e.2 <= w && ((u == e.0 && v == e.1) || (u == e.1 && v == e.0));
            assert(touches(edges_upto(es, w), u, v) <==> (touches(edges_upto(prev, w), u, v) || fresh)) by {
                if edges_upto(es, w)(u, v) {
                    let m = choose|m: int| #[trigger] edge_at(es, m, u, v, w);
                    if m < prev.len() {
                        assert(edge_at(prev, m, u, v, w));
                    }
                }
                if edges_upto(es, w)(v, u) {
                    let m = choose|m: int| #[trigger] edge_at(es, m, v, u, w);
                    if m < prev.len() {
                        assert(edge_at(prev, m, v, u, w));
                    }
                }
                if edges_upto(prev, w)(u, v) {
                    let m = choose|m: int| #[trigger] edge_at(prev, m, u, v, w);
                    assert(edge_at(es, m, u, v, w));
                }
                if edges_upto(prev, w)(v, u) {
                    let m = choose|m: int| #[trigger] edge_at(prev, m, v, u, w);
                    assert(edge_at(es, m, v, u, w));
                }
                if fresh {
                    if u == e.0 && v == e.1 {
                        assert(edge_at(es, es.len() - 1, u, v, w));
                    } else {
                        assert(edge_at(es, es.len() - 1, v, u, w));
                    }
                }
            }
            assert(has_entry(g2, u, v, w) <==> (has_entry(g, u, v, w) || fresh)) by {
                if has_entry(g2, u, v, w) {
                    let m = choose|m: int| 0 <= m < g2[u].len() && (#[trigger] g2[u][m]).0 == v && g2[u][m].1 <= w;
                    if u == e.1 {
                        if m < g1[u].len() {
                            if u == e.0 {
                                if m < g[u].len() {
                                    assert(g[u][m] == g2[u][m]);
                                }
                            } else {
                                assert(g[u][m] == g2[u][m]);
                            }
                        }
                    } else if u == e.0 {
                        if m < g[u].len() {
                            assert(g[u][m] == g2[u][m]);
                        }
                    } else {
                        assert(g[u][m] == g2[u][m]);
                    }
                }
                if has_entry(g, u, v, w) {
                    let m = choose|m: int| 0 <= m < g[u].len() && (#[trigger] g[u][m]).0 == v && g[u][m].1 <= w;
                    assert(g2[u][m] == g[u][m]);
                }
                if fresh {
                    if u == e.0 && v == e.1 {
                        if u == e.1 {
                            assert(g2[u][g[u].len() as int] == (e.1, e.2));
                        } else {
                            assert(g2[u][g[u].len() as int] == (e.1, e.2));
                        }
                    } else {
                        assert(g2[u][g1[u].len() as int] == (e.0, e.2));
                    }
                }
            }
        }
    }
}

/// Every entry `(v, w)` of row `u` has its mirror `(u, w)` in row `v`.
pub open spec fn mirrored(rs: Seq<Seq<(usize, u64)>>) -> bool {
    forall|u: int, m: int| 0 <= u < rs.len() && 0 <= m < rs[u].len() ==> #[trigger] has_mirror(rs, u, m)
}

/// Entry `m` of row `u` has its mirror in the row it names.
pub open spec fn has_mirror(rs: Seq<Seq<(usize, u64)>>, u: int, m: int) -> bool {
    exists|m2: int| 0 <= m2 < rs[rs[u][m].0 as int].len()
        && #[trigger] rs[rs[u][m].0 as int][m2] == (u as usize, rs[u][m].1)
}

/// Adding one edge from both ends keeps the lists mirrored.
#[verifier::spinoff_prover]
#[verifier::rlimit(40)]
proof fn lemma_mirrored_step(g: Seq<Seq<(usize, u64)>>, n: nat, e: (usize, usize, u64))
    requires
        g.len() == n,
        n <= usize::MAX + 1,
        mirrored(g),
        e.0 < n,
        e.1 < n,
        forall|u: int, m: int| 0 <= u < n && 0 <= m < g[u].len() ==> (#[trigger] g[u][m]).0 < n,
    ensures
        ({
            let g1 = g.update(e.0 as int, g[e.0 as int].push((e.1, e.2)));
            let g2 = g1.update(e.1 as int, g1[e.1 as int].push((e.0, e.2)));
            &&& mirrored(g2)
            &&& forall|u: int, m: int| 0 <= u < n && 0 <= m < g2[u].len() ==> (#[trigger] g2[u][m]).0 < n
        }),
{
    let g1 = g.update(e.0 as int, g[e.0 as int].push((e.1, e.2)));
    let g2 = g1.update(e.1 as int, g1[e.1 as int].push((e.0, e.2)));
    assert forall|u: int, m: int| 0 <= u < n && 0 <= m < g2[u].len() implies (#[trigger] g2[u][m]).0 < n by {
        if m < g[u].len() {
            assert(g2[u][m] == g[u][m]);
        }
    }
    assert forall|u: int, m: int| 0 <= u < g2.len() && 0 <= m < g2[u].len() implies #[trigger] has_mirror(g2, u, m) by {
        let v = g2[u][m].0 as int;
        if m < g[u].len() {
            assert(g2[u][m] == g[u][m]);
            assert(g[u][m].0 < n);
            assert(has_mirror(g, u, m));
            let m2 = choose|m2: int| 0 <= m2 < g[v].len() && #[trigger] g[v][m2] == (u as usize, g[u][m].1);
            assert(g2[v][m2] == g[v][m2]);
        } else if u == e.0 && m == g[u].len() {
            if u == e.1 {
                assert(g2[u][m] == (e.1, e.2));
                assert(g2[u][m + 1] == (e.0, e.2));
            } else {
                assert(g2[u][m] == (e.1, e.2));
                assert(g2[v][g1[v].len() as int] == (e.0, e.2));
            }
        } else {
            assert(u == e.1);
            assert(g2[u][m] == (e.0, e.2));
            assert(g2[v][g[v].len() as int] == (e.1, e.2));
        }
    }
    assert(mirrored(g2));
}

/// The adjacency lists of edges between nodes below `n` list each edge from both ends.
pub proof fn lemma_adjacency_mirrored(n: nat, es: Seq<(usize, usize, u64)>)
    requires
        ends_below(es, n),
        n <= usize::MAX + 1,
    ensures
        adjacency_of(n, es).len() == n,
        mirrored(adjacency_of(n, es)),
        forall|u: int, m: int| 0 <= u < n && 0 <= m < adjacency_of(n, es)[u].len() ==>
            (#[trigger] adjacency_of(n, es)[u][m]).0 < n,
    decreases es.len(),
{
    let g2 = adjacency_of(n, es);
    if es.len() == 0 {
        assert forall|u: int, m: int| 0 <= u < g2.len() && 0 <= m < g2[u].len() implies #[trigger] has_mirror(g2, u, m) by {
            assert(g2[u].len() == 0);
        }
    } else {
        let prev = es.drop_last();
        let e = es.last();
        assert(ends_below(prev, n)) by {
            assert forall|k: int| 0 <= k < prev.len() implies (#[trigger] prev[k]).0 < n && prev[k].1 < n by {
                assert(prev[k] == es[k]);
            }
        }
        assert(es[es.len() - 1] == e);
        lemma_adjacency_mirrored(n, prev);
        lemma_mirrored_step(adjacency_of(n, prev), n, e);
    }
}

} // verus!
