//! Clustering over a tree given as adjacency lists: cutting the edges heavier
//! than a threshold and labelling the connected components that remain.

use vstd::prelude::*;

use crate::connectivity::{lemma_linked_ext, lemma_linked_keeps_label, lemma_linked_mono, linked};
use crate::union_set::{lemma_join_links, same, UnionSet};

verus! {

/// The `m`-th entry of `u`'s list in `g` leads to `v` with a weight of at most `max_dist`.
pub open spec fn short_entry(g: Seq<Vec<(usize, u64)>>, max_dist: u64, u: int, m: int, v: int) -> bool {
    &&& 0 <= u < g.len()
    &&& 0 <= m < g[u]@.len()
    &&& g[u]@[m].0 == v
    &&& g[u]@[m].1 <= max_dist
}

/// The edges of `g` whose weight is at most `max_dist`.
pub open spec fn within(g: Seq<Vec<(usize, u64)>>, max_dist: u64) -> spec_fn(int, int) -> bool {
    |u: int, v: int| exists|m: int| #[trigger] short_entry(g, max_dist, u, m, v)
}

/// The edges of `within(g, max_dist)` listed before entry `k` of node `i`.
pub open spec fn within_before(g: Seq<Vec<(usize, u64)>>, max_dist: u64, i: int, k: int) -> spec_fn(int, int) -> bool {
    |u: int, v: int| exists|m: int| #[trigger] short_entry(g, max_dist, u, m, v) && (u < i || (u == i && m < k))
}

/// Every neighbour named in `g` is a node of `g`.
pub open spec fn neighbours_in_range(g: Seq<Vec<(usize, u64)>>) -> bool {
    forall|u: int, m: int| 0 <= u < g.len() && 0 <= m < g[u]@.len() ==> (#[trigger] g[u]@[m]).0 < g.len()
}

/// Cuts every edge of `graph` heavier than `max_dist` and labels each node with a
/// representative of its connected component: two nodes get the same label exactly
/// when a path of edges no heavier than `max_dist` joins them, and each label is a
/// node of the component that carries its own label.
pub fn clusters(graph: &[Vec<(usize, u64)>], max_dist: u64) -> (r: Vec<usize>)
    requires
        neighbours_in_range(graph@),
    ensures
        r@.len() == graph@.len(),
        forall|x: int| 0 <= x < r@.len() ==> (#[trigger] r@[x] as int) < r@.len() && r@[r@[x] as int] == r@[x],
        forall|x: int, y: int| 0 <= x < r@.len() && 0 <= y < r@.len() ==>
            (r@[x] == r@[y] <==> linked(within(graph@, max_dist), x, y)),
{
    let n = graph.len();
    let ghost g = graph@;
    let mut ds = UnionSet::new(n);
    assert forall|x: int, y: int| 0 <= x < n && 0 <= y < n implies
        (same(ds@, x, y) <==> linked(within_before(g, max_dist, 0, 0), x, y)) by {
        crate::union_set::lemma_joins_connect(n as nat, Seq::empty());
        let e = crate::union_set::joined_by(Seq::empty());
        assert forall|u: int, v: int| #[trigger] e(u, v) <==> within_before(g, max_dist, 0, 0)(u, v) by {
            if within_before(g, max_dist, 0, 0)(u, v) {
                let m = choose|m: int| #[trigger] short_entry(g, max_dist, u, m, v) && (u < 0 || (u == 0 && m < 0));
            }
            if e(u, v) {
                let m = choose|m: int| 0 <= m < 0 && #[trigger] Seq::<(int, int)>::empty()[m] == (u, v);
            }
        }
        lemma_linked_ext(e, within_before(g, max_dist, 0, 0));
        assert(crate::union_set::after_joins(n as nat, Seq::empty()).0 == ds@);
    }
    let mut i: usize = 0;
    while i < n
        invariant
            i <= n,
            n == g.len(),
            g == graph@,
            neighbours_in_range(g),
            ds.wf(),
            ds.len() == n,
            forall|x: int, y: int| 0 <= x < n && 0 <= y < n ==>
                (same(ds@, x, y) <==> linked(within_before(g, max_dist, i as int, 0), x, y)),
        decreases n - i,
    {
        let row = &graph[i];
        let mut k: usize = 0;
        while k < row.len()
            invariant
                i < n,
                n == g.len(),
                g == graph@,
                row@ == g[i as int]@,
                neighbours_in_range(g),
                k <= row@.len(),
                ds.wf(),
                ds.len() == n,
                forall|x: int, y: int| 0 <= x < n && 0 <= y < n ==>
                    (same(ds@, x, y) <==> linked(within_before(g, max_dist, i as int, k as int), x, y)),
            decreases row@.len() - k,
        {
            let (j, w) = row[k];
            let ghost adj = within_before(g, max_dist, i as int, k as int);
            let ghost adj2 = within_before(g, max_dist, i as int, k as int + 1);
            let ghost before = ds@;
            assert(g[i as int]@[k as int].0 < n);
            assert forall|u: int, v: int| #[trigger] adj(u, v) implies 0 <= u < n && 0 <= v < n by {
                let m = choose|m: int| #[trigger] short_entry(g, max_dist, u, m, v) && (u < i || (u == i && m < k));
                assert(g[u]@[m].0 < n);
            }
            if w <= max_dist {
                ds.join(i, j);
                assert forall|u: int, v: int| #[trigger] adj2(u, v) <==> (adj(u, v) || (u == i && v == j)) by {
                    if adj2(u, v) {
                        let m = choose|m: int| #[trigger] short_entry(g, max_dist, u, m, v) && (u < i || (u == i && m < k + 1));
                        if !(u < i || (u == i && m < k)) {
                            assert(m == k && u == i);
                        }
                    }
                    if u == i && v == j {
                        assert(short_entry(g, max_dist, u, k as int, v));
                    }
                }
                proof {
                    lemma_join_links(adj, adj2, before, ds@, n as nat, i as int, j as int);
                }
            } else {
                assert forall|u: int, v: int| #[trigger] adj2(u, v) <==> adj(u, v) by {
                    if adj2(u, v) {
                        let m = choose|m: int| #[trigger] short_entry(g, max_dist, u, m, v) && (u < i || (u == i && m < k + 1));
                        if !(u < i || (u == i && m < k)) {
                            assert(m == k && u == i);
                        }
                    }
                }
                proof {
                    lemma_linked_ext(adj, adj2);
                }
            }
            k = k + 1;
        }
        let ghost adj = within_before(g, max_dist, i as int, k as int);
        let ghost adj2 = within_before(g, max_dist, i as int + 1, 0);
        assert forall|u: int, v: int| #[trigger] adj2(u, v) <==> adj(u, v) by {
            if adj2(u, v) {
                let m = choose|m: int| #[trigger] short_entry(g, max_dist, u, m, v) && (u < i + 1 || (u == i + 1 && m < 0));
            }
        }
        proof {
            lemma_linked_ext(adj, adj2);
        }
        i = i + 1;
    }
    let ghost all = within(g, max_dist);
    assert forall|u: int, v: int| #[trigger] all(u, v) <==> within_before(g, max_dist, n as int, 0)(u, v) by {
        if all(u, v) {
            let m = choose|m: int| #[trigger] short_entry(g, max_dist, u, m, v);
        }
    }
    proof {
        lemma_linked_ext(all, within_before(g, max_dist, n as int, 0));
    }
    let ghost reps = ds@;
    proof {
        ds.lemma_reps_ok();
    }
    let mut r: Vec<usize> = Vec::new();
    let mut x: usize = 0;
    while x < n
        invariant
            x <= n,
            ds.wf(),
            ds.len() == n,
            ds@ == reps,
            n == g.len(),
            crate::union_set::reps_ok(reps, n as nat),
            forall|a: int, b: int| 0 <= a < n && 0 <= b < n ==> (same(reps, a, b) <==> linked(all, a, b)),
            r@.len() == x,
            forall|y: int| 0 <= y < x ==> r@[y] as int == reps[y],
        decreases n - x,
    {
        let rx = ds.find(x);
        r.push(rx);
        x = x + 1;
    }
    assert forall|a: int| 0 <= a < r@.len() implies (#[trigger] r@[a] as int) < r@.len() && r@[r@[a] as int] == r@[a] by {
        assert(0 <= reps[a] < n);
    }
    r
}

/// Raising the threshold only merges clusters: whatever is linked under `low` is
/// linked under any `high` above it.
pub proof fn lemma_cut_monotone(g: Seq<Vec<(usize, u64)>>, low: u64, high: u64, x: int, y: int)
    requires
        low <= high,
        linked(within(g, low), x, y),
    ensures
        linked(within(g, high), x, y),
{
    assert forall|u: int, v: int| #[trigger] within(g, low)(u, v) implies within(g, high)(u, v) by {
        let m = choose|m: int| #[trigger] short_entry(g, low, u, m, v);
        assert(short_entry(g, high, u, m, v));
    }
    lemma_linked_mono(within(g, low), within(g, high), x, y);
}

/// With every weight positive, a threshold of zero cuts every edge: each node is a
/// cluster of its own.
pub proof fn lemma_zero_cut_singletons(g: Seq<Vec<(usize, u64)>>, x: int, y: int)
    requires
        forall|u: int, m: int| 0 <= u < g.len() && 0 <= m < g[u]@.len() ==> (#[trigger] g[u]@[m]).1 > 0,
    ensures
        linked(within(g, 0), x, y) <==> x == y,
{
    if x == y {
        crate::connectivity::lemma_linked_refl(within(g, 0), x);
    }
    if linked(within(g, 0), x, y) {
        let label = |u: int| u;
        assert forall|u: int, v: int| #[trigger] within(g, 0)(u, v) implies label(u) == label(v) by {
            let m = choose|m: int| #[trigger] short_entry(g, 0, u, m, v);
            assert(g[u]@[m].1 > 0);
        }
        lemma_linked_keeps_label(within(g, 0), label, x, y);
    }
}

} // verus!
