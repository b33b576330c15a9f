//! Grouping by breadth-first search from a given order of starting nodes.
//!
//! Unlike the threshold cut of `clusters`, which keeps edges of weight at most the
//! threshold, this search follows only edges strictly lighter than it: the two
//! agree only where no edge weighs exactly the threshold.

use vstd::prelude::*;
use vstd::set_lib::{lemma_int_range, lemma_len_subset, set_int_range};

use crate::clusters::neighbours_in_range;
use crate::mst::{has_mirror, mirrored, rows};
use crate::connectivity::{
    lemma_linked_edge, lemma_linked_keeps_label, lemma_linked_refl, lemma_linked_symm,
    lemma_linked_trans, linked,
};

verus! {

/// The `m`-th entry of `u`'s list in `g` leads to `v` with a weight below `max_dist`.
pub open spec fn light_entry(g: Seq<Vec<(usize, u64)>>, max_dist: u64, u: int, m: int, v: int) -> bool {
    &&& 0 <= u < g.len()
    &&& 0 <= m < g[u]@.len()
    &&& g[u]@[m].0 == v
    &&& g[u]@[m].1 < max_dist
}

/// The edges of `g` strictly lighter than `max_dist`.
pub open spec fn below(g: Seq<Vec<(usize, u64)>>, max_dist: u64) -> spec_fn(int, int) -> bool {
    |u: int, v: int| exists|m: int| #[trigger] light_entry(g, max_dist, u, m, v)
}

/// Every entry `(v, w)` in the list of `u` has its mirror `(u, w)` in the list of `v`.
pub open spec fn symmetric(g: Seq<Vec<(usize, u64)>>) -> bool {
    mirrored(rows(g))
}

/// `start` lists every node below `n`, and only such nodes.
pub open spec fn covers_nodes(start: Seq<usize>, n: nat) -> bool {
    &&& forall|q: int| 0 <= q < start.len() ==> (#[trigger] start[q]) < n
    &&& forall|x: int| 0 <= x < n ==> #[trigger] listed(start, x)
}

/// Some node carries label `c`.
pub open spec fn used_label(labels: Seq<usize>, c: int) -> bool {
    exists|x: int| 0 <= x < labels.len() && #[trigger] labels[x] == c
}

/// `x` occurs in `start`.
pub open spec fn listed(start: Seq<usize>, x: int) -> bool {
    exists|q: int| 0 <= q < start.len() && #[trigger] start[q] == x
}

/// The nodes marked in `visited`.
pub open spec fn seen(visited: Seq<bool>) -> Set<int> {
    Set::new(|y: int| 0 <= y < visited.len() && visited[y])
}

/// At most every node is marked, and one left unmarked makes the count smaller.
proof fn lemma_seen_bound(visited: Seq<bool>, v: int)
    ensures
        seen(visited).finite(),
        seen(visited).len() <= visited.len(),
        0 <= v < visited.len() && !visited[v] ==> seen(visited).len() < visited.len(),
        0 <= v < visited.len() && !visited[v] ==> seen(visited.update(v, true)) == seen(visited).insert(v),
{
    lemma_int_range(0, visited.len() as int);
    lemma_len_subset(seen(visited), set_int_range(0, visited.len() as int));
    if 0 <= v < visited.len() && !visited[v] {
        assert(seen(visited.update(v, true)) =~= seen(visited).insert(v));
        lemma_len_subset(seen(visited).insert(v), set_int_range(0, visited.len() as int));
    }
}

/// Labels every node with the number of its group: groups are found in the order of
/// their first node in `start`, and each is grown breadth first along edges lighter
/// than `max_dist`. Two nodes get one label exactly when such edges link them.
fn search_labels(graph: &[Vec<(usize, u64)>], max_dist: u64, start: &[usize]) -> (r: (Vec<usize>, usize))
    requires
        neighbours_in_range(graph@),
        symmetric(graph@),
        covers_nodes(start@, graph@.len()),
    ensures
        r.0@.len() == graph@.len(),
        r.1 <= graph@.len(),
        forall|x: int| 0 <= x < graph@.len() ==> #[trigger] r.0@[x] < r.1,
        forall|c: int| 0 <= c < r.1 ==> #[trigger] used_label(r.0@, c),
        forall|x: int, y: int| 0 <= x < graph@.len() && 0 <= y < graph@.len() ==>
            (r.0@[x] == r.0@[y] <==> #[trigger] linked(below(graph@, max_dist), x, y)),
{
    let n = graph.len();
    let ghost g = graph@;
    let ghost adj = below(g, max_dist);
    let mut visited: Vec<bool> = Vec::new();
    let mut label: Vec<usize> = Vec::new();
    let mut x: usize = 0;
    while x < n
        invariant
            x <= n,
            visited@ == Seq::new(x as nat, |i: int| false),
            label@ == Seq::new(x as nat, |i: int| 0usize),
        decreases n - x,
    {
        visited.push(false);
        label.push(0);
        x = x + 1;
    }
    let ghost mut expanded: Seq<bool> = Seq::new(n as nat, |i: int| false);
    let ghost mut roots: Seq<int> = Seq::empty();
    let mut k: usize = 0;
    let mut p: usize = 0;
    proof {
        lemma_seen_bound(visited@, 0);
    }
    while p < start.len()
        invariant
            n == g.len(),
            g == graph@,
            adj == below(g, max_dist),
            neighbours_in_range(g),
            symmetric(g),
            covers_nodes(start@, n as nat),
            p <= start@.len(),
            visited@.len() == n,
            label@.len() == n,
            expanded.len() == n,
            roots.len() == k,
            k <= n,
            forall|q: int| 0 <= q < p ==> visited@[#[trigger] start@[q] as int],
            forall|y: int| 0 <= y < n && #[trigger] visited@[y] ==> label@[y] < k && expanded[y],
            forall|y: int| 0 <= y < n && #[trigger] expanded[y] ==> visited@[y],
            forall|c: int| 0 <= c < k ==> 0 <= #[trigger] roots[c] < n && visited@[roots[c]] && label@[roots[c]] == c,
            forall|y: int| 0 <= y < n && #[trigger] visited@[y] ==> linked(adj, roots[label@[y] as int], y),
            forall|u: int, m: int, v: int| 0 <= u < n && expanded[u] && #[trigger] light_entry(g, max_dist, u, m, v) ==>
                visited@[v] && label@[v] == label@[u],
            seen(visited@).finite(),
            k <= seen(visited@).len(),
        decreases start@.len() - p,
    {
        let s = start[p];
        if !visited[s] {
            let c = k;
            let ghost before = visited@;
            proof {
                lemma_seen_bound(visited@, s as int);
                assert(!expanded[s as int]);
            }
            visited.set(s, true);
            label.set(s, c);
            proof {
                roots = roots.push(s as int);
                lemma_linked_refl(adj, s as int);
                lemma_seen_bound(visited@, s as int);
                assert(seen(visited@).contains(s as int));
                assert(seen(visited@).len() == seen(before).len() + 1);
            }
            k = k + 1;
            let mut queue: Vec<usize> = Vec::new();
            queue.push(s);
            let mut head: usize = 0;
            proof {
                assert forall|y: int| 0 <= y < n && #[trigger] visited@[y] && !expanded[y] implies
                    exists|j: int| head <= j < queue@.len() && #[trigger] queue@[j] == y by {
                    if y != s {
                        assert(before[y]);
                    }
                    assert(queue@[0] == s);
                }
            }
            while head < queue.len()
                invariant
                    n == g.len(),
                    g == graph@,
                    adj == below(g, max_dist),
                    neighbours_in_range(g),
                    symmetric(g),
                    covers_nodes(start@, n as nat),
                    p < start@.len(),
                    visited@.len() == n,
                    label@.len() == n,
                    expanded.len() == n,
                    k == c + 1,
                    roots.len() == k,
                    k <= n,
                    head <= queue@.len(),
                    s < n,
                    seen(visited@).finite(),
                    seen(visited@).len() <= n,
                    k <= seen(visited@).len(),
                    queue@.len() <= seen(visited@).len(),
                    forall|q: int| 0 <= q < p ==> visited@[#[trigger] start@[q] as int],
                    visited@[s as int],
                    forall|y: int| 0 <= y < n && #[trigger] visited@[y] ==> label@[y] < k,
                    forall|y: int| 0 <= y < n && #[trigger] visited@[y] && label@[y] < c ==> expanded[y],
                    forall|y: int| 0 <= y < n && #[trigger] visited@[y] && !expanded[y] ==>
                        exists|j: int| head <= j < queue@.len() && #[trigger] queue@[j] == y,
                    forall|j: int| 0 <= j < queue@.len() ==> (#[trigger] queue@[j]) < n && visited@[queue@[j] as int]
                        && label@[queue@[j] as int] == c,
                    forall|y: int| 0 <= y < n && #[trigger] expanded[y] ==> visited@[y],
                    forall|c2: int| 0 <= c2 < k ==> 0 <= #[trigger] roots[c2] < n && visited@[roots[c2]] && label@[roots[c2]] == c2,
                    forall|y: int| 0 <= y < n && #[trigger] visited@[y] ==> linked(adj, roots[label@[y] as int], y),
                    forall|u: int, m: int, v: int| 0 <= u < n && expanded[u] && #[trigger] light_entry(g, max_dist, u, m, v) ==>
                        visited@[v] && label@[v] == label@[u],
                decreases n - head,
            {
                let u = queue[head];
                head = head + 1;
                let row = &graph[u];
                let mut m: usize = 0;
                while m < row.len()
                    invariant
                        n == g.len(),
                        g == graph@,
                        adj == below(g, max_dist),
                        neighbours_in_range(g),
                        symmetric(g),
                        u < n,
                        s < n,
                        p < start@.len(),
                        covers_nodes(start@, n as nat),
                        row@ == g[u as int]@,
                        m <= row@.len(),
                        visited@.len() == n,
                        label@.len() == n,
                        expanded.len() == n,
                        k == c + 1,
                        roots.len() == k,
                        head <= queue@.len(),
                        seen(visited@).finite(),
                        seen(visited@).len() <= n,
                        k <= seen(visited@).len(),
                        queue@.len() <= seen(visited@).len(),
                        visited@[u as int],
                        label@[u as int] == c,
                        forall|q: int| 0 <= q < p ==> visited@[#[trigger] start@[q] as int],
                        visited@[s as int],
                        forall|y: int| 0 <= y < n && #[trigger] visited@[y] ==> label@[y] < k,
                        forall|y: int| 0 <= y < n && #[trigger] visited@[y] && label@[y] < c ==> expanded[y],
                        forall|y: int| 0 <= y < n && #[trigger] visited@[y] && !expanded[y] && y != u ==>
                            exists|j: int| head <= j < queue@.len() && #[trigger] queue@[j] == y,
                        forall|j: int| 0 <= j < queue@.len() ==> (#[trigger] queue@[j]) < n && visited@[queue@[j] as int]
                            && label@[queue@[j] as int] == c,
                        forall|y: int| 0 <= y < n && #[trigger] expanded[y] ==> visited@[y],
                        forall|c2: int| 0 <= c2 < k ==> 0 <= #[trigger] roots[c2] < n && visited@[roots[c2]] && label@[roots[c2]] == c2,
                        forall|y: int| 0 <= y < n && #[trigger] visited@[y] ==> linked(adj, roots[label@[y] as int], y),
                        forall|u2: int, m2: int, v: int| 0 <= u2 < n && expanded[u2] && #[trigger] light_entry(g, max_dist, u2, m2, v) ==>
                            visited@[v] && label@[v] == label@[u2],
                        forall|m2: int, v: int| 0 <= m2 < m && #[trigger] light_entry(g, max_dist, u as int, m2, v) ==>
                            visited@[v] && label@[v] == c,
                    decreases row@.len() - m,
                {
                    let (v, w) = row[m];
                    assert(g[u as int]@[m as int].0 < n);
                    if w < max_dist {
                        assert(light_entry(g, max_dist, u as int, m as int, v as int));
                        if !visited[v] {
                            let ghost vis0 = visited@;
                            let ghost q0 = queue@;
                            proof {
                                lemma_seen_bound(visited@, v as int);
                                assert(!expanded[v as int]);
                            }
                            visited.set(v, true);
                            label.set(v, c);
                            queue.push(v);
                            proof {
                                lemma_seen_bound(visited@, v as int);
                                assert(seen(visited@) == seen(vis0).insert(v as int));
                                assert forall|q: int| 0 <= q < p implies visited@[#[trigger] start@[q] as int] by {
                                    assert(start@[q] < n);
                                    assert(vis0[start@[q] as int]);
                                }
                                assert(vis0[s as int]);
                                assert(visited@[s as int]);
                                assert forall|y: int| 0 <= y < n && #[trigger] visited@[y] && !expanded[y] && y != u implies
                                    exists|j: int| head <= j < queue@.len() && #[trigger] queue@[j] == y by {
                                    if y == v {
                                        assert(queue@[queue@.len() - 1] == y);
                                    } else {
                                        assert(vis0[y]);
                                        let j = choose|j: int| head <= j < q0.len() && #[trigger] q0[j] == y;
                                        assert(queue@[j] == y);
                                    }
                                }
                                assert(adj(u as int, v as int));
                                lemma_linked_edge(adj, u as int, v as int);
                                lemma_linked_trans(adj, roots[c as int], u as int, v as int);
                            }
                        } else {
                            proof {
                                if label@[v as int] < c {
                                    let rs = rows(g);
                                    assert(has_mirror(rs, u as int, m as int));
                                    assert(rs[u as int][m as int] == (v, w));
                                    let m2 = choose|m2: int| 0 <= m2 < rs[v as int].len()
                                        && #[trigger] rs[v as int][m2] == (u, w);
                                    assert(g[v as int]@[m2] == (u, w));
                                    assert(light_entry(g, max_dist, v as int, m2, u as int));
                                }
                            }
                        }
                    }
                    m = m + 1;
                }
                proof {
                    expanded = expanded.update(u as int, true);
                }
                assert(head <= queue@.len());
            }
        }
        p = p + 1;
    }
    proof {
        lemma_seen_bound(visited@, 0);
        assert forall|y: int| 0 <= y < n implies #[trigger] visited@[y] by {
            assert(listed(start@, y));
            let q = choose|q: int| 0 <= q < start@.len() && #[trigger] start@[q] == y;
        }
        assert forall|y: int| 0 <= y < n implies #[trigger] label@[y] < k by {
            assert(visited@[y]);
        }
        assert forall|c: int| 0 <= c < k implies #[trigger] used_label(label@, c) by {
            assert(label@[roots[c]] == c);
        }
        assert forall|a: int, b: int| 0 <= a < n && 0 <= b < n implies
            (label@[a] == label@[b] <==> #[trigger] linked(adj, a, b)) by {
            assert(visited@[a] && visited@[b]);
            if label@[a] == label@[b] {
                lemma_linked_symm(adj, roots[label@[a] as int], a);
                lemma_linked_trans(adj, a, roots[label@[a] as int], b);
            }
            if linked(adj, a, b) {
                let f = |y: int| if 0 <= y < n { label@[y] as int } else { y };
                assert forall|y: int, z: int| #[trigger] adj(y, z) implies f(y) == f(z) by {
                    let m = choose|m: int| #[trigger] light_entry(g, max_dist, y, m, z);
                    assert(g[y]@[m].0 < n);
                    assert(visited@[y]);
                }
                lemma_linked_keeps_label(adj, f, a, b);
            }
        }
    }
    (label, k)
}

/// `g` lists, in ascending order, exactly the nodes below `n` labelled `c`.
pub open spec fn members_of(g: Seq<usize>, labels: Seq<usize>, n: nat, c: int) -> bool {
    &&& forall|i: int| 0 <= i < g.len() ==> (#[trigger] g[i]) < n && labels[g[i] as int] == c
    &&& forall|i: int, j: int| 0 <= i < j < g.len() ==> g[i] < g[j]
    &&& forall|y: int| 0 <= y < n && labels[y] == c ==> #[trigger] g.contains(y as usize)
}

/// The nodes labelled `c`, in ascending order.
fn members(labels: &Vec<usize>, c: usize) -> (r: Vec<usize>)
    ensures
        members_of(r@, labels@, labels@.len(), c as int),
        r@.len() <= labels@.len(),
{
    let n = labels.len();
    let mut g: Vec<usize> = Vec::new();
    let mut x: usize = 0;
    while x < n
        invariant
            x <= n,
            n == labels@.len(),
            g@.len() <= x,
            forall|i: int| 0 <= i < g@.len() ==> (#[trigger] g@[i]) < x && labels@[g@[i] as int] == c,
            forall|i: int, j: int| 0 <= i < j < g@.len() ==> g@[i] < g@[j],
            forall|y: int| 0 <= y < x && labels@[y] == c ==> #[trigger] g@.contains(y as usize),
        decreases n - x,
    {
        if labels[x] == c {
            let ghost g0 = g@;
            g.push(x);
            proof {
                assert forall|y: int| 0 <= y < x + 1 && labels@[y] == c implies #[trigger] g@.contains(y as usize) by {
                    if y == x {
                        assert(g@[g@.len() - 1] == x);
                    } else {
                        assert(g0.contains(y as usize));
                        let i = choose|i: int| 0 <= i < g0.len() && g0[i] == y as usize;
                        assert(g@[i] == y as usize);
                    }
                }
            }
        }
        x = x + 1;
    }
    g
}

/// Node `x` stands in some group of `r`.
pub open spec fn placed(r: Seq<Vec<usize>>, x: int) -> bool {
    exists|t: int, i: int| 0 <= t < r.len() && 0 <= i < r[t]@.len() && #[trigger] r[t]@[i] == x
}

/// Groups the nodes of `graph` by breadth-first search along edges strictly lighter
/// than `max_dist`, starting from the nodes of `start` in order. Every node stands
/// in exactly one group, once; two nodes share a group exactly when such edges link
/// them; groups come in ascending order of size (ties in order of discovery), and
/// each lists its members in ascending order.
pub fn clusters_by_search(graph: &[Vec<(usize, u64)>], max_dist: u64, start: &[usize]) -> (r: Vec<Vec<usize>>)
    requires
        neighbours_in_range(graph@),
        symmetric(graph@),
        covers_nodes(start@, graph@.len()),
    ensures
        forall|t: int| 0 <= t < r@.len() ==> (#[trigger] r@[t])@.len() > 0,
        forall|t1: int, t2: int| 0 <= t1 < t2 < r@.len() ==> r@[t1]@.len() <= r@[t2]@.len(),
        forall|t: int, i: int| 0 <= t < r@.len() && 0 <= i < r@[t]@.len() ==> (#[trigger] r@[t]@[i]) < graph@.len(),
        forall|x: int| 0 <= x < graph@.len() ==> #[trigger] placed(r@, x),
        forall|t1: int, i1: int, t2: int, i2: int|
            0 <= t1 < r@.len() && 0 <= i1 < r@[t1]@.len() && 0 <= t2 < r@.len() && 0 <= i2 < r@[t2]@.len() ==>
                (#[trigger] r@[t1]@[i1] == #[trigger] r@[t2]@[i2] ==> t1 == t2 && i1 == i2)
                && (linked(below(graph@, max_dist), r@[t1]@[i1] as int, r@[t2]@[i2] as int) <==> t1 == t2),
{
    let n = graph.len();
    let (labels, k) = search_labels(graph, max_dist, start);
    let mut tmp: Vec<Vec<usize>> = Vec::new();
    let mut lens: Vec<usize> = Vec::new();
    let mut c: usize = 0;
    while c < k
        invariant
            c <= k,
            k <= n,
            labels@.len() == n,
            tmp@.len() == c,
            lens@.len() == c,
            forall|d: int| 0 <= d < c ==> members_of((#[trigger] tmp@[d])@, labels@, n as nat, d),
            forall|d: int| 0 <= d < c ==> (#[trigger] lens@[d]) == tmp@[d]@.len() && lens@[d] <= n,
        decreases k - c,
    {
        let g = members(&labels, c);
        lens.push(g.len());
        tmp.push(g);
        c = c + 1;
    }
    let ghost found = tmp@;
    proof {
        assert forall|d: int| 0 <= d < k implies (#[trigger] lens@[d]) >= 1 by {
            assert(used_label(labels@, d));
            let y = choose|y: int| 0 <= y < labels@.len() && #[trigger] labels@[y] == d;
            assert(found[d]@.contains(y as usize));
        }
    }
    let mut out: Vec<Vec<usize>> = Vec::new();
    let ghost mut ids: Seq<int> = Seq::empty();
    let mut sz: usize = 0;
    while sz < n
        invariant
            sz <= n,
            k <= n,
            tmp@.len() == k,
            lens@.len() == k,
            forall|d: int| 0 <= d < k ==> (#[trigger] lens@[d]) == found[d]@.len() && 1 <= lens@[d] <= n,
            out@.len() == ids.len(),
            forall|t: int| 0 <= t < ids.len() ==> 0 <= #[trigger] ids[t] < k && out@[t] == found[ids[t]],
            forall|t1: int, t2: int| 0 <= t1 < t2 < ids.len() ==> ids[t1] != ids[t2] && lens@[ids[t1]] <= lens@[ids[t2]],
            forall|t: int| 0 <= t < ids.len() ==> lens@[#[trigger] ids[t]] <= sz,
            forall|d: int| 0 <= d < k && lens@[d] > sz ==> tmp@[d] == #[trigger] found[d],
            forall|d: int| 0 <= d < k && lens@[d] <= sz ==> exists|t: int| 0 <= t < ids.len() && #[trigger] ids[t] == d,
        decreases n - sz,
    {
        let mut d: usize = 0;
        while d < k
            invariant
                sz < n,
                d <= k,
                k <= n,
                tmp@.len() == k,
                lens@.len() == k,
                forall|e: int| 0 <= e < k ==> (#[trigger] lens@[e]) == found[e]@.len() && 1 <= lens@[e] <= n,
                out@.len() == ids.len(),
                forall|t: int| 0 <= t < ids.len() ==> 0 <= #[trigger] ids[t] < k && out@[t] == found[ids[t]],
                forall|t1: int, t2: int| 0 <= t1 < t2 < ids.len() ==> ids[t1] != ids[t2] && lens@[ids[t1]] <= lens@[ids[t2]],
                forall|t: int| 0 <= t < ids.len() ==> lens@[#[trigger] ids[t]] <= sz + 1,
                forall|t: int| 0 <= t < ids.len() && lens@[ids[t]] == sz + 1 ==> #[trigger] ids[t] < d,
                forall|e: int| 0 <= e < k && (lens@[e] > sz + 1 || (lens@[e] == sz + 1 && e >= d)) ==> tmp@[e] == #[trigger] found[e],
                forall|e: int| 0 <= e < k && (lens@[e] <= sz || (lens@[e] == sz + 1 && e < d)) ==>
                    exists|t: int| 0 <= t < ids.len() && #[trigger] ids[t] == e,
            decreases k - d,
        {
            if lens[d] == sz + 1 {
                let ghost tmp0 = tmp@;
                tmp.push(Vec::new());
                let g = tmp.swap_remove(d);
                assert(g == found[d as int]);
                out.push(g);
                let ghost ids0 = ids;
                proof {
                    ids = ids.push(d as int);
                    assert forall|e: int| 0 <= e < k && (lens@[e] > sz + 1 || (lens@[e] == sz + 1 && e >= d + 1)) implies
                        tmp@[e] == #[trigger] found[e] by {
                        assert(tmp0[e] == found[e]);
                    }
                    assert forall|e: int| 0 <= e < k && (lens@[e] <= sz || (lens@[e] == sz + 1 && e < d + 1)) implies
                        exists|t: int| 0 <= t < ids.len() && #[trigger] ids[t] == e by {
                        if e == d {
                            assert(ids[ids.len() - 1] == e);
                        } else {
                            let t = choose|t: int| 0 <= t < ids0.len() && #[trigger] ids0[t] == e;
                            assert(ids[t] == ids0[t]);
                        }
                    }
                }
            }
            d = d + 1;
        }
        sz = sz + 1;
    }
    proof {
        assert(ids.len() == out@.len());
        assert forall|t1: int, t2: int| 0 <= t1 < t2 < out@.len() implies out@[t1]@.len() <= out@[t2]@.len() by {
            assert(lens@[ids[t1]] <= lens@[ids[t2]]);
        }
        assert forall|t: int| 0 <= t < out@.len() implies (#[trigger] out@[t])@.len() > 0 by {
            assert(lens@[ids[t]] >= 1);
        }
        assert forall|x: int| 0 <= x < n implies #[trigger] placed(out@, x) by {
            let d = labels@[x] as int;
            assert(labels@[x] < k);
            assert(lens@[d] <= n);
            let t = choose|t: int| 0 <= t < ids.len() && #[trigger] ids[t] == d;
            assert(members_of(found[d]@, labels@, n as nat, d));
            assert(found[d]@.contains(x as usize));
            let i = choose|i: int| 0 <= i < found[d]@.len() && found[d]@[i] == x as usize;
            assert(out@[t]@[i] == x);
        }
        assert forall|t1: int, i1: int, t2: int, i2: int|
            0 <= t1 < out@.len() && 0 <= i1 < out@[t1]@.len() && 0 <= t2 < out@.len() && 0 <= i2 < out@[t2]@.len() implies
                (#[trigger] out@[t1]@[i1] == #[trigger] out@[t2]@[i2] ==> t1 == t2 && i1 == i2)
                && (linked(below(graph@, max_dist), out@[t1]@[i1] as int, out@[t2]@[i2] as int) <==> t1 == t2) by {
            let d1 = ids[t1];
            let d2 = ids[t2];
            assert(members_of(found[d1]@, labels@, n as nat, d1));
            assert(members_of(found[d2]@, labels@, n as nat, d2));
            assert(labels@[out@[t1]@[i1] as int] == d1);
            assert(labels@[out@[t2]@[i2] as int] == d2);
            if t1 != t2 {
                if t1 < t2 {
                    assert(d1 != d2);
                } else {
                    assert(d2 != d1);
                }
            }
            if t1 == t2 && i1 != i2 {
                if i1 < i2 {
                    assert(found[d1]@[i1] < found[d1]@[i2]);
                } else {
                    assert(found[d1]@[i2] < found[d1]@[i1]);
                }
            }
        }
        assert forall|t: int, i: int| 0 <= t < out@.len() && 0 <= i < out@[t]@.len() implies (#[trigger] out@[t]@[i]) < n by {
            assert(members_of(found[ids[t]]@, labels@, n as nat, ids[t]));
        }
    }
    out
}

/// Relies on rand's `SliceRandom::shuffle` driven by `StdRng::seed_from_u64(seed)`:
/// it only swaps items of the slice, so the result is a permutation of the input.
#[verifier::external_body]
fn shuffle(v: &mut Vec<usize>, seed: u64)
    ensures
        final(v)@.to_multiset() == old(v)@.to_multiset(),
{
    let mut rng = <rand::rngs::StdRng as rand::SeedableRng>::seed_from_u64(seed);
    rand::seq::SliceRandom::shuffle(v.as_mut_slice(), &mut rng);
}

/// `clusters_by_search` from an order of starting nodes drawn from a generator
/// seeded with `seed`: the groups are the same for every order, their order among
/// groups of one size and nothing else may vary with the seed.
pub fn clusters_shuffled(graph: &[Vec<(usize, u64)>], max_dist: u64, seed: u64) -> (r: Vec<Vec<usize>>)
    requires
        neighbours_in_range(graph@),
        symmetric(graph@),
    ensures
        forall|t: int| 0 <= t < r@.len() ==> (#[trigger] r@[t])@.len() > 0,
        forall|t1: int, t2: int| 0 <= t1 < t2 < r@.len() ==> r@[t1]@.len() <= r@[t2]@.len(),
        forall|t: int, i: int| 0 <= t < r@.len() && 0 <= i < r@[t]@.len() ==> (#[trigger] r@[t]@[i]) < graph@.len(),
        forall|x: int| 0 <= x < graph@.len() ==> #[trigger] placed(r@, x),
        forall|t1: int, i1: int, t2: int, i2: int|
            0 <= t1 < r@.len() && 0 <= i1 < r@[t1]@.len() && 0 <= t2 < r@.len() && 0 <= i2 < r@[t2]@.len() ==>
                (#[trigger] r@[t1]@[i1] == #[trigger] r@[t2]@[i2] ==> t1 == t2 && i1 == i2)
                && (linked(below(graph@, max_dist), r@[t1]@[i1] as int, r@[t2]@[i2] as int) <==> t1 == t2),
{
    let n = graph.len();
    let mut order: Vec<usize> = Vec::new();
    let mut x: usize = 0;
    while x < n
        invariant
            x <= n,
            order@ == Seq::new(x as nat, |i: int| i as usize),
        decreases n - x,
    {
        order.push(x);
        x = x + 1;
    }
    let ghost before = order@;
    shuffle(&mut order, seed);
    proof {
        before.to_multiset_ensures();
        order@.to_multiset_ensures();
        assert forall|q: int| 0 <= q < order@.len() implies (#[trigger] order@[q]) < n by {
            assert(order@.contains(order@[q]));
            assert(before.to_multiset().count(order@[q]) > 0);
            assert(before.contains(order@[q]));
        }
        assert forall|y: int| 0 <= y < n implies #[trigger] listed(order@, y) by {
            assert(before[y] == y as usize);
            assert(before.contains(y as usize));
            assert(order@.to_multiset().count(y as usize) > 0);
            assert(order@.contains(y as usize));
        }
    }
    clusters_by_search(graph, max_dist, order.as_slice())
}

} // verus!
