//! The whole pipeline: distance matrix, minimum spanning tree, threshold cut.

use vstd::prelude::*;

use crate::clusters::{clusters, neighbours_in_range, short_entry, within};
use crate::connectivity::{
    is_path, lemma_linked_edge, lemma_linked_ext, lemma_linked_mono, lemma_linked_refl, lemma_linked_symm,
    lemma_linked_through, lemma_linked_touch_ext, lemma_linked_trans, linked, touches,
};
use crate::mst::{
    adjacency_of, build_mst, edge_at, edge_from, edges_upto, ends_below, has_entry,
    lemma_adjacency_entries, lemma_adjacency_mirrored, rows,
};
use crate::union_set::{
    after_joins, joined_by, lemma_joins_connect, lemma_joins_leave_classes, lemma_one_class_roots, same,
};
use crate::zip_distance::{distance, ncd, zlib_of};
use crate::search::{below, clusters_shuffled, light_entry, placed};

verus! {

/// The pairs of nodes whose entry in `table` is at most `max_dist`.
pub open spec fn table_within(table: Seq<Vec<u64>>, max_dist: u64) -> spec_fn(int, int) -> bool {
    |u: int, v: int| 0 <= u < table.len() && 0 <= v < table.len() && table[u]@[v] <= max_dist
}

/// `table` is square.
pub open spec fn is_square(table: Seq<Vec<u64>>) -> bool {
    forall|i: int| 0 <= i < table.len() ==> (#[trigger] table[i])@.len() == table.len()
}

/// The distance between items `i` and `j` of `data`.
pub open spec fn pair_distance(data: Seq<&[u8]>, i: int, j: int) -> Option<u64> {
    ncd(
        zlib_of(data[i]@).len() as int,
        zlib_of(data[j]@).len() as int,
        zlib_of(data[i]@ + data[j]@).len() as int,
    )
}

/// The pairs of items of `data` whose distance is defined and at most `max_dist`.
pub open spec fn close_pairs(data: Seq<&[u8]>, max_dist: u64) -> spec_fn(int, int) -> bool {
    |u: int, v: int|
        0 <= u < data.len() && 0 <= v < data.len() && pair_distance(data, u, v) is Some
            && pair_distance(data, u, v)->Some_0 <= max_dist
}

/// The labels of a partition: each label is an item that carries its own label.
pub open spec fn labels_ok(r: Seq<usize>) -> bool {
    forall|x: int| 0 <= x < r.len() ==> (#[trigger] r[x] as int) < r.len() && r[r[x] as int] == r[x]
}

/// A tree cut at `t` links what the edges of the tree no heavier than `t` link.
pub proof fn lemma_tree_cut(n: nat, es: Seq<(usize, usize, u64)>, g: Seq<Vec<(usize, u64)>>, t: u64)
    requires
        ends_below(es, n),
        rows(g) == adjacency_of(n, es),
    ensures
        forall|x: int, y: int| linked(within(g, t), x, y) <==> #[trigger] linked(edges_upto(es, t), x, y),
{
    lemma_adjacency_entries(n, es, t);
    assert forall|u: int, v: int| #[trigger] within(g, t)(u, v) <==> has_entry(rows(g), u, v, t) by {
        if within(g, t)(u, v) {
            let m = choose|m: int| #[trigger] short_entry(g, t, u, m, v);
            assert(rows(g)[u][m] == g[u]@[m]);
        }
        if has_entry(rows(g), u, v, t) {
            let m = choose|m: int| 0 <= m < rows(g)[u].len() && (#[trigger] rows(g)[u][m]).0 == v && rows(g)[u][m].1 <= t;
            assert(short_entry(g, t, u, m, v));
        }
    }
    assert forall|u: int, v: int| #[trigger] touches(within(g, t), u, v) <==> touches(edges_upto(es, t), u, v) by {
        assert(has_entry(rows(g), u, v, t) <==> touches(edges_upto(es, t), u, v));
        assert(has_entry(rows(g), v, u, t) <==> touches(edges_upto(es, t), v, u));
    }
    lemma_linked_touch_ext(within(g, t), edges_upto(es, t));
}

/// The lists of a tree name only its nodes.
proof fn lemma_tree_lists_in_range(n: nat, es: Seq<(usize, usize, u64)>, g: Seq<Vec<(usize, u64)>>)
    requires
        ends_below(es, n),
        rows(g) == adjacency_of(n, es),
    ensures
        neighbours_in_range(g),
        g.len() == n,
{
    lemma_adjacency_entries(n, es, u64::MAX);
    assert forall|u: int, m: int| 0 <= u < g.len() && 0 <= m < g[u]@.len() implies (#[trigger] g[u]@[m]).0 < g.len() by {
        let v = g[u]@[m].0 as int;
        assert(rows(g)[u][m] == g[u]@[m]);
        assert(has_entry(rows(g), u, v, u64::MAX));
        if edges_upto(es, u64::MAX)(u, v) {
            let k = choose|k: int| #[trigger] edge_at(es, k, u, v, u64::MAX);
            assert(es[k].1 < n);
        } else {
            let k = choose|k: int| #[trigger] edge_at(es, k, v, u, u64::MAX);
            assert(es[k].0 < n);
        }
    }
}

/// Clusters of the items whose pairwise distances `table` gives: two items get the
/// same label exactly when a chain of pairs, each at a distance of at most
/// `max_dist`, joins them.
pub fn build_from_table(table: &[Vec<u64>], max_dist: u64) -> (r: Vec<usize>)
    requires
        is_square(table@),
    ensures
        r@.len() == table@.len(),
        labels_ok(r@),
        forall|x: int, y: int| 0 <= x < r@.len() && 0 <= y < r@.len() ==>
            (r@[x] == r@[y] <==> linked(table_within(table@, max_dist), x, y)),
{
    let n = table.len();
    let (es, graph) = build_mst(table, n);
    proof {
        assert(ends_below(es@, n as nat)) by {
            assert forall|k: int| 0 <= k < es@.len() implies (#[trigger] es@[k]).0 < n && es@[k].1 < n by {
                assert(edge_from(table@, n as nat, es@[k]));
            }
        }
        lemma_tree_lists_in_range(n as nat, es@, graph@);
    }
    let r = clusters(graph.as_slice(), max_dist);
    proof {
        lemma_tree_cut(n as nat, es@, graph@, max_dist);
        let e = edges_upto(es@, max_dist);
        let c = table_within(table@, max_dist);
        assert forall|x: int, y: int| 0 <= x < n && 0 <= y < n implies
            (linked(e, x, y) <==> #[trigger] linked(c, x, y)) by {
            if linked(e, x, y) {
                assert forall|u: int, v: int| #[trigger] e(u, v) implies c(u, v) by {
                    let k = choose|k: int| #[trigger] edge_at(es@, k, u, v, max_dist);
                    assert(edge_from(table@, n as nat, es@[k]));
                }
                lemma_linked_mono(e, c, x, y);
            }
            if linked(c, x, y) {
                assert forall|u: int, v: int| #[trigger] c(u, v) implies linked(e, u, v) by {
                    let d = table@[u]@[v];
                    assert(linked(edges_upto(es@, d), u, v));
                    assert forall|p: int, q: int| #[trigger] edges_upto(es@, d)(p, q) implies e(p, q) by {
                        let k = choose|k: int| #[trigger] edge_at(es@, k, p, q, d);
                        assert(edge_at(es@, k, p, q, max_dist));
                    }
                    lemma_linked_mono(edges_upto(es@, d), e, u, v);
                }
                lemma_linked_through(c, e, x, y);
            }
        }
    }
    r
}

/// Every pair of items of `data` has a defined distance.
pub open spec fn all_defined(data: Seq<&[u8]>) -> bool {
    forall|i: int, j: int| 0 <= i < data.len() && 0 <= j < data.len() ==> #[trigger] pair_distance(data, i, j) is Some
}

/// The matrix of distances between every item and every item, itself included;
/// `None` exactly when one of them is undefined.
pub fn build_distance_table(data: &[&[u8]]) -> (r: Option<Vec<Vec<u64>>>)
    ensures
        r is Some <==> all_defined(data@),
        r matches Some(t) ==> {
            &&& t@.len() == data@.len()
            &&& is_square(t@)
            &&& forall|i: int, j: int| 0 <= i < data@.len() && 0 <= j < data@.len() ==>
                pair_distance(data@, i, j) == Some(#[trigger] t@[i]@[j])
        },
{
    let n = data.len();
    let mut table: Vec<Vec<u64>> = Vec::new();
    let mut i: usize = 0;
    while i < n
        invariant
            i <= n,
            n == data@.len(),
            table@.len() == i,
            forall|a: int| 0 <= a < i ==> (#[trigger] table@[a])@.len() == n,
            forall|a: int, b: int| 0 <= a < i && 0 <= b < n ==> pair_distance(data@, a, b) == Some(#[trigger] table@[a]@[b]),
        decreases n - i,
    {
        let mut row: Vec<u64> = Vec::new();
        let mut j: usize = 0;
        while j < n
            invariant
                i < n,
                j <= n,
                n == data@.len(),
                row@.len() == j,
                forall|b: int| 0 <= b < j ==> pair_distance(data@, i as int, b) == Some(#[trigger] row@[b]),
            decreases n - j,
        {
            match distance(data[i], data[j]) {
                Some(d) => row.push(d),
                None => {
                    assert(pair_distance(data@, i as int, j as int) is None);
                    return None;
                },
            }
            j = j + 1;
        }
        table.push(row);
        i = i + 1;
    }
    assert forall|a: int, b: int| 0 <= a < n && 0 <= b < n implies #[trigger] pair_distance(data@, a, b) is Some by {
        assert(pair_distance(data@, a, b) == Some(table@[a]@[b]));
    }
    Some(table)
}

/// Clusters of `data`: two items get the same label exactly when a chain of pairs,
/// each at a distance of at most `max_dist`, joins them; `None` when a distance
/// is undefined.
pub fn build(data: &[&[u8]], max_dist: u64) -> (r: Option<Vec<usize>>)
    ensures
        r is Some <==> all_defined(data@),
        r matches Some(v) ==> {
            &&& v@.len() == data@.len()
            &&& labels_ok(v@)
            &&& forall|x: int, y: int| 0 <= x < data@.len() && 0 <= y < data@.len() ==>
                (v@[x] == v@[y] <==> #[trigger] linked(close_pairs(data@, max_dist), x, y))
        },
{
    match build_distance_table(data) {
        None => None,
        Some(table) => {
            let r = build_from_table(table.as_slice(), max_dist);
            proof {
                assert forall|u: int, v: int| #[trigger] table_within(table@, max_dist)(u, v)
                    <==> close_pairs(data@, max_dist)(u, v) by {
                    if 0 <= u < data@.len() && 0 <= v < data@.len() {
                        assert(pair_distance(data@, u, v) == Some(table@[u]@[v]));
                    }
                }
                lemma_linked_ext(table_within(table@, max_dist), close_pairs(data@, max_dist));
            }
            Some(r)
        },
    }
}

/// The pairs `(i, j)` of the edges `es`.
pub open spec fn edge_pairs(es: Seq<(usize, usize, u64)>) -> Seq<(int, int)> {
    es.map_values(|e: (usize, usize, u64)| (e.0 as int, e.1 as int))
}

/// Cutting a tree at no threshold at all gives the classes that joining its edges
/// one by one gives.
pub proof fn lemma_uncut_tree_matches_joins(n: nat, es: Seq<(usize, usize, u64)>, g: Seq<Vec<(usize, u64)>>, x: int, y: int)
    requires
        ends_below(es, n),
        rows(g) == adjacency_of(n, es),
        0 <= x < n,
        0 <= y < n,
    ensures
        linked(within(g, u64::MAX), x, y) <==> same(after_joins(n, edge_pairs(es)).0, x, y),
{
    let ps = edge_pairs(es);
    assert forall|m: int| 0 <= m < ps.len() implies 0 <= (#[trigger] ps[m]).0 < n && 0 <= ps[m].1 < n by {
        assert(es[m].0 < n && es[m].1 < n);
    }
    lemma_joins_connect(n, ps);
    lemma_tree_cut(n, es, g, u64::MAX);
    assert forall|u: int, v: int| #[trigger] joined_by(ps)(u, v) <==> edges_upto(es, u64::MAX)(u, v) by {
        if joined_by(ps)(u, v) {
            let m = choose|m: int| 0 <= m < ps.len() && #[trigger] ps[m] == (u, v);
            assert(edge_at(es, m, u, v, u64::MAX));
        }
        if edges_upto(es, u64::MAX)(u, v) {
            let m = choose|m: int| #[trigger] edge_at(es, m, u, v, u64::MAX);
            assert(ps[m] == (u, v));
        }
    }
    lemma_linked_ext(joined_by(ps), edges_upto(es, u64::MAX));
    assert(linked(joined_by(ps), x, y) <==> linked(edges_upto(es, u64::MAX), x, y));
    assert(linked(within(g, u64::MAX), x, y) <==> linked(edges_upto(es, u64::MAX), x, y));
    assert(same(after_joins(n, ps).0, x, y) <==> linked(joined_by(ps), x, y));
}

/// A spanning tree cut at no threshold at all is one cluster.
pub proof fn lemma_uncut_tree_one_cluster(n: nat, es: Seq<(usize, usize, u64)>, g: Seq<Vec<(usize, u64)>>, x: int, y: int)
    requires
        ends_below(es, n),
        rows(g) == adjacency_of(n, es),
        forall|a: int, b: int| 0 <= a < n && 0 <= b < n ==> #[trigger] linked(edges_upto(es, u64::MAX), a, b),
        0 <= x < n,
        0 <= y < n,
    ensures
        linked(within(g, u64::MAX), x, y),
{
    lemma_tree_cut(n, es, g, u64::MAX);
    assert(linked(edges_upto(es, u64::MAX), x, y));
}

/// The edges of `es` strictly lighter than `max_dist`.
pub open spec fn lighter_than(es: Seq<(usize, usize, u64)>, max_dist: u64) -> spec_fn(int, int) -> bool {
    |u: int, v: int| exists|m: int| #[trigger] edge_at(es, m, u, v, u64::MAX) && es[m].2 < max_dist
}

/// A tree searched along edges lighter than `max_dist` links what those edges of
/// the tree link.
proof fn lemma_tree_search(n: nat, es: Seq<(usize, usize, u64)>, g: Seq<Vec<(usize, u64)>>, max_dist: u64)
    requires
        ends_below(es, n),
        rows(g) == adjacency_of(n, es),
    ensures
        forall|x: int, y: int| linked(below(g, max_dist), x, y) <==> #[trigger] linked(lighter_than(es, max_dist), x, y),
{
    if max_dist == 0 {
        assert forall|u: int, v: int| #[trigger] below(g, max_dist)(u, v) <==> lighter_than(es, max_dist)(u, v) by {
            if below(g, max_dist)(u, v) {
                let m = choose|m: int| #[trigger] light_entry(g, max_dist, u, m, v);
            }
            if lighter_than(es, max_dist)(u, v) {
                let m = choose|m: int| #[trigger] edge_at(es, m, u, v, u64::MAX) && es[m].2 < max_dist;
            }
        }
        lemma_linked_ext(below(g, max_dist), lighter_than(es, max_dist));
    } else {
        let t = (max_dist - 1) as u64;
        lemma_tree_cut(n, es, g, t);
        assert forall|u: int, v: int| #[trigger] below(g, max_dist)(u, v) <==> within(g, t)(u, v) by {
            if below(g, max_dist)(u, v) {
                let m = choose|m: int| #[trigger] light_entry(g, max_dist, u, m, v);
                assert(short_entry(g, t, u, m, v));
            }
            if within(g, t)(u, v) {
                let m = choose|m: int| #[trigger] short_entry(g, t, u, m, v);
                assert(light_entry(g, max_dist, u, m, v));
            }
        }
        assert forall|u: int, v: int| #[trigger] lighter_than(es, max_dist)(u, v) <==> edges_upto(es, t)(u, v) by {
            if lighter_than(es, max_dist)(u, v) {
                let m = choose|m: int| #[trigger] edge_at(es, m, u, v, u64::MAX) && es[m].2 < max_dist;
                assert(edge_at(es, m, u, v, t));
            }
            if edges_upto(es, t)(u, v) {
                let m = choose|m: int| #[trigger] edge_at(es, m, u, v, t);
                assert(edge_at(es, m, u, v, u64::MAX));
            }
        }
        lemma_linked_ext(below(g, max_dist), within(g, t));
        lemma_linked_ext(lighter_than(es, max_dist), edges_upto(es, t));
        assert forall|x: int, y: int| linked(below(g, max_dist), x, y) <==> #[trigger] linked(lighter_than(es, max_dist), x, y) by {
            assert(linked(below(g, max_dist), x, y) <==> linked(within(g, t), x, y));
            assert(linked(within(g, t), x, y) <==> linked(edges_upto(es, t), x, y));
            assert(linked(lighter_than(es, max_dist), x, y) <==> linked(edges_upto(es, t), x, y));
        }
    }
}

/// The minimum spanning tree of `table` (as `build_mst` gives it) and its groups
/// by breadth-first search from a start order seeded with `seed` along tree edges strictly
/// lighter than `max_dist`: every item stands in exactly one group, once; two items
/// share a group exactly when such tree edges link them; groups come in ascending
/// order of size.
pub fn tree_groups(table: &[Vec<u64>], max_dist: u64, seed: u64) -> (r: (Vec<(usize, usize, u64)>, Vec<Vec<usize>>))
    requires
        is_square(table@),
    ensures
        r.0@.len() == if table@.len() == 0 { 0 } else { table@.len() - 1 },
        forall|m: int| 0 <= m < r.0@.len() ==> edge_from(table@, table@.len(), #[trigger] r.0@[m]),
        forall|a: int, b: int| 0 <= a < table@.len() && 0 <= b < table@.len() ==>
            #[trigger] linked(edges_upto(r.0@, table@[a]@[b]), a, b),
        forall|t: int| 0 <= t < r.1@.len() ==> (#[trigger] r.1@[t])@.len() > 0,
        forall|t1: int, t2: int| 0 <= t1 < t2 < r.1@.len() ==> r.1@[t1]@.len() <= r.1@[t2]@.len(),
        forall|t: int, i: int| 0 <= t < r.1@.len() && 0 <= i < r.1@[t]@.len() ==> (#[trigger] r.1@[t]@[i]) < table@.len(),
        forall|x: int| 0 <= x < table@.len() ==> #[trigger] placed(r.1@, x),
        forall|t1: int, i1: int, t2: int, i2: int|
            0 <= t1 < r.1@.len() && 0 <= i1 < r.1@[t1]@.len() && 0 <= t2 < r.1@.len() && 0 <= i2 < r.1@[t2]@.len() ==>
                (#[trigger] r.1@[t1]@[i1] == #[trigger] r.1@[t2]@[i2] ==> t1 == t2 && i1 == i2)
                && (linked(lighter_than(r.0@, max_dist), r.1@[t1]@[i1] as int, r.1@[t2]@[i2] as int) <==> t1 == t2),
{
    let n = table.len();
    let (es, graph) = build_mst(table, n);
    proof {
        assert(ends_below(es@, n as nat)) by {
            assert forall|k: int| 0 <= k < es@.len() implies (#[trigger] es@[k]).0 < n && es@[k].1 < n by {
                assert(edge_from(table@, n as nat, es@[k]));
            }
        }
        lemma_tree_lists_in_range(n as nat, es@, graph@);
        lemma_adjacency_mirrored(n as nat, es@);
        lemma_tree_search(n as nat, es@, graph@, max_dist);
    }
    let groups = clusters_shuffled(graph.as_slice(), max_dist, seed);
    (es, groups)
}

/// Walking back along a path of `full`, whose edges are those of `rest` and the
/// pair `a`, `b`, every node is linked under `rest` to `a` or to `b` when the last
/// one is.
proof fn lemma_walk_reaches_ends(full: spec_fn(int, int) -> bool, rest: spec_fn(int, int) -> bool, a: int, b: int, p: Seq<int>)
    requires
        is_path(full, p),
        forall|u: int, v: int| #[trigger] full(u, v) ==> rest(u, v) || (u == a && v == b),
        linked(rest, p.last(), a) || linked(rest, p.last(), b),
    ensures
        linked(rest, p[0], a) || linked(rest, p[0], b),
    decreases p.len(),
{
    if p.len() > 1 {
        let q = p.drop_first();
        assert forall|k: int| 0 <= k < q.len() - 1 implies #[trigger] touches(full, q[k], q[k + 1]) by {
            let j = k + 1;
            assert(touches(full, p[j], p[j + 1]));
            assert(q[k] == p[j] && q[k + 1] == p[j + 1]);
        }
        assert(q.last() == p.last());
        lemma_walk_reaches_ends(full, rest, a, b, q);
        let z: int = 0;
        assert(touches(full, p[z], p[z + 1]));
        let (u, v) = (p[0], p[1]);
        if (full(u, v) && rest(u, v)) || (full(v, u) && rest(v, u)) {
            if rest(u, v) {
                lemma_linked_edge(rest, u, v);
            } else {
                lemma_linked_edge(rest, v, u);
                lemma_linked_symm(rest, v, u);
            }
            if linked(rest, v, a) {
                lemma_linked_trans(rest, u, v, a);
            } else {
                lemma_linked_trans(rest, u, v, b);
            }
        } else {
            assert(u == a || u == b);
            lemma_linked_refl(rest, u);
        }
    }
}

/// Taking any one edge out of a spanning tree splits it in exactly two: the two
/// ends of that edge are no longer linked, and every node is still linked to one
/// of them.
pub proof fn lemma_tree_edge_cut(n: nat, es: Seq<(usize, usize, u64)>, k: int)
    requires
        es.len() + 1 == n,
        ends_below(es, n),
        forall|a: int, b: int| 0 <= a < n && 0 <= b < n ==> #[trigger] linked(edges_upto(es, u64::MAX), a, b),
        0 <= k < es.len(),
    ensures
        !linked(edges_upto(es.remove(k), u64::MAX), es[k].0 as int, es[k].1 as int),
        forall|x: int| 0 <= x < n ==>
            linked(edges_upto(es.remove(k), u64::MAX), x, es[k].0 as int)
            || #[trigger] linked(edges_upto(es.remove(k), u64::MAX), x, es[k].1 as int),
{
    let rest_es = es.remove(k);
    let full = edges_upto(es, u64::MAX);
    let rest = edges_upto(rest_es, u64::MAX);
    let a = es[k].0 as int;
    let b = es[k].1 as int;
    assert forall|u: int, v: int| #[trigger] full(u, v) implies rest(u, v) || (u == a && v == b) by {
        let m = choose|m: int| #[trigger] edge_at(es, m, u, v, u64::MAX);
        if m < k {
            assert(edge_at(rest_es, m, u, v, u64::MAX));
        } else if m > k {
            assert(rest_es[m - 1] == es[m]);
            assert(edge_at(rest_es, m - 1, u, v, u64::MAX));
        }
    }
    assert forall|x: int| 0 <= x < n implies linked(rest, x, a) || #[trigger] linked(rest, x, b) by {
        assert(a < n);
        assert(linked(full, x, a));
        let p = choose|p: Seq<int>| #[trigger] is_path(full, p) && p[0] == x && p.last() == a;
        lemma_linked_refl(rest, a);
        lemma_walk_reaches_ends(full, rest, a, b, p);
    }
    if linked(rest, a, b) {
        let ps = edge_pairs(rest_es);
        assert forall|m: int| 0 <= m < ps.len() implies 0 <= (#[trigger] ps[m]).0 < n && 0 <= ps[m].1 < n by {
            if m < k {
                assert(rest_es[m] == es[m]);
            } else {
                assert(rest_es[m] == es[m + 1]);
            }
        }
        lemma_joins_connect(n, ps);
        lemma_joins_leave_classes(n, ps);
        assert forall|u: int, v: int| #[trigger] joined_by(ps)(u, v) <==> rest(u, v) by {
            if joined_by(ps)(u, v) {
                let m = choose|m: int| 0 <= m < ps.len() && #[trigger] ps[m] == (u, v);
                assert(edge_at(rest_es, m, u, v, u64::MAX));
            }
            if rest(u, v) {
                let m = choose|m: int| #[trigger] edge_at(rest_es, m, u, v, u64::MAX);
                assert(ps[m] == (u, v));
            }
        }
        lemma_linked_ext(joined_by(ps), rest);
        let reps = after_joins(n, ps).0;
        assert forall|x: int, y: int| 0 <= x < n && 0 <= y < n implies same(reps, x, y) by {
            assert(linked(rest, x, a) || linked(rest, x, b));
            assert(linked(rest, y, a) || linked(rest, y, b));
            lemma_linked_symm(rest, a, b);
            if linked(rest, x, b) {
                lemma_linked_trans(rest, x, b, a);
            }
            if linked(rest, y, b) {
                lemma_linked_trans(rest, y, b, a);
            }
            lemma_linked_symm(rest, y, a);
            lemma_linked_trans(rest, x, a, y);
            assert(linked(joined_by(ps), x, y));
        }
        lemma_one_class_roots(reps, n);
        assert(false);
    }
}

} // verus!
