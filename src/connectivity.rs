//! Paths over an abstract adjacency relation, and the facts about them that the
//! union-find based algorithms rely on.

use vstd::prelude::*;

verus! {

/// `u` and `v` are neighbours when `adj` relates them in either direction.
pub open spec fn touches(adj: spec_fn(int, int) -> bool, u: int, v: int) -> bool {
    adj(u, v) || adj(v, u)
}

/// `p` is a nonempty walk whose consecutive nodes are neighbours under `adj`.
pub open spec fn is_path(adj: spec_fn(int, int) -> bool, p: Seq<int>) -> bool {
    &&& p.len() > 0
    &&& forall|k: int| 0 <= k < p.len() - 1 ==> #[trigger] touches(adj, p[k], p[k + 1])
}

/// Some walk under `adj` leads from `x` to `y`.
pub open spec fn linked(adj: spec_fn(int, int) -> bool, x: int, y: int) -> bool {
    exists|p: Seq<int>| #[trigger] is_path(adj, p) && p[0] == x && p.last() == y
}

/// Every node is linked to itself by the one-node walk.
pub proof fn lemma_linked_refl(adj: spec_fn(int, int) -> bool, x: int)
    ensures
        linked(adj, x, x),
{
    let p = seq![x];
    assert(is_path(adj, p));
}

/// Two neighbours are linked.
pub proof fn lemma_linked_edge(adj: spec_fn(int, int) -> bool, x: int, y: int)
    requires
        touches(adj, x, y),
    ensures
        linked(adj, x, y),
{
    let p = seq![x, y];
    assert(touches(adj, p[0], p[1]));
    assert(is_path(adj, p));
}

/// Walks can be reversed.
pub proof fn lemma_linked_symm(adj: spec_fn(int, int) -> bool, x: int, y: int)
    requires
        linked(adj, x, y),
    ensures
        linked(adj, y, x),
{
    let p = choose|p: Seq<int>| #[trigger] is_path(adj, p) && p[0] == x && p.last() == y;
    let q = p.reverse();
    assert forall|k: int| 0 <= k < q.len() - 1 implies #[trigger] touches(adj, q[k], q[k + 1]) by {
        let m = p.len() - 2 - k;
        assert(touches(adj, p[m], p[m + 1]));
    }
    assert(is_path(adj, q));
}

/// Walks can be chained.
pub proof fn lemma_linked_trans(adj: spec_fn(int, int) -> bool, x: int, y: int, z: int)
    requires
        linked(adj, x, y),
        linked(adj, y, z),
    ensures
        linked(adj, x, z),
{
    let p = choose|p: Seq<int>| #[trigger] is_path(adj, p) && p[0] == x && p.last() == y;
    let q = choose|q: Seq<int>| #[trigger] is_path(adj, q) && q[0] == y && q.last() == z;
    let r = p + q.drop_first();
    assert forall|k: int| 0 <= k < r.len() - 1 implies #[trigger] touches(adj, r[k], r[k + 1]) by {
        if k < p.len() - 1 {
            assert(touches(adj, p[k], p[k + 1]));
        } else if k == p.len() - 1 {
            assert(r[k] == q[0] && r[k + 1] == q[1]);
            let z: int = 0;
            assert(touches(adj, q[z], q[z + 1]));
        } else {
            let m = k - p.len() + 1;
            assert(touches(adj, q[m], q[m + 1]));
        }
    }
    assert(is_path(adj, r));
}

/// A walk under `a` is a walk under any relation that contains `a`.
pub proof fn lemma_linked_mono(a: spec_fn(int, int) -> bool, b: spec_fn(int, int) -> bool, x: int, y: int)
    requires
        linked(a, x, y),
        forall|u: int, v: int| #[trigger] a(u, v) ==> b(u, v),
    ensures
        linked(b, x, y),
{
    let p = choose|p: Seq<int>| #[trigger] is_path(a, p) && p[0] == x && p.last() == y;
    assert forall|k: int| 0 <= k < p.len() - 1 implies #[trigger] touches(b, p[k], p[k + 1]) by {
        assert(touches(a, p[k], p[k + 1]));
    }
    assert(is_path(b, p));
}

/// When every pair of neighbours under `adj` has equal labels, so do the two
/// ends of every walk.
pub proof fn lemma_path_keeps_label(adj: spec_fn(int, int) -> bool, label: spec_fn(int) -> int, p: Seq<int>)
    requires
        is_path(adj, p),
        forall|u: int, v: int| #[trigger] adj(u, v) ==> label(u) == label(v),
    ensures
        label(p[0]) == label(p.last()),
    decreases p.len(),
{
    if p.len() > 1 {
        let q = p.drop_last();
        assert forall|k: int| 0 <= k < q.len() - 1 implies #[trigger] touches(adj, q[k], q[k + 1]) by {
            assert(touches(adj, p[k], p[k + 1]));
        }
        lemma_path_keeps_label(adj, label, q);
        let m = p.len() - 2;
        assert(touches(adj, p[m], p[m + 1]));
        assert(q.last() == p[m]);
    }
}

/// Linked nodes carry equal labels when neighbours always do.
pub proof fn lemma_linked_keeps_label(adj: spec_fn(int, int) -> bool, label: spec_fn(int) -> int, x: int, y: int)
    requires
        linked(adj, x, y),
        forall|u: int, v: int| #[trigger] adj(u, v) ==> label(u) == label(v),
    ensures
        label(x) == label(y),
{
    let p = choose|p: Seq<int>| #[trigger] is_path(adj, p) && p[0] == x && p.last() == y;
    lemma_path_keeps_label(adj, label, p);
}

/// Relations with the same pairs link the same nodes.
pub proof fn lemma_linked_ext(a: spec_fn(int, int) -> bool, b: spec_fn(int, int) -> bool)
    requires
        forall|u: int, v: int| #[trigger] a(u, v) <==> b(u, v),
    ensures
        forall|x: int, y: int| linked(a, x, y) <==> #[trigger] linked(b, x, y),
{
    assert forall|x: int, y: int| linked(a, x, y) <==> #[trigger] linked(b, x, y) by {
        if linked(a, x, y) {
            lemma_linked_mono(a, b, x, y);
        }
        if linked(b, x, y) {
            lemma_linked_mono(b, a, x, y);
        }
    }
}

/// When neighbours under `a` are always linked under `b`, so is every pair linked
/// under `a`.
pub proof fn lemma_linked_through(a: spec_fn(int, int) -> bool, b: spec_fn(int, int) -> bool, x: int, y: int)
    requires
        linked(a, x, y),
        forall|u: int, v: int| #[trigger] a(u, v) ==> linked(b, u, v),
    ensures
        linked(b, x, y),
{
    let p = choose|p: Seq<int>| #[trigger] is_path(a, p) && p[0] == x && p.last() == y;
    lemma_path_through(a, b, p);
}

proof fn lemma_path_through(a: spec_fn(int, int) -> bool, b: spec_fn(int, int) -> bool, p: Seq<int>)
    requires
        is_path(a, p),
        forall|u: int, v: int| #[trigger] a(u, v) ==> linked(b, u, v),
    ensures
        linked(b, p[0], p.last()),
    decreases p.len(),
{
    if p.len() == 1 {
        lemma_linked_refl(b, p[0]);
    } else {
        let q = p.drop_last();
        assert forall|k: int| 0 <= k < q.len() - 1 implies #[trigger] touches(a, q[k], q[k + 1]) by {
            assert(touches(a, p[k], p[k + 1]));
        }
        lemma_path_through(a, b, q);
        let m = p.len() - 2;
        assert(touches(a, p[m], p[m + 1]));
        if a(p[m], p[m + 1]) {
            assert(linked(b, p[m], p[m + 1]));
        } else {
            assert(linked(b, p[m + 1], p[m]));
            lemma_linked_symm(b, p[m + 1], p[m]);
        }
        lemma_linked_trans(b, p[0], p[m], p[m + 1]);
    }
}

/// Relations with the same neighbours link the same nodes.
pub proof fn lemma_linked_touch_ext(a: spec_fn(int, int) -> bool, b: spec_fn(int, int) -> bool)
    requires
        forall|u: int, v: int| #[trigger] touches(a, u, v) <==> touches(b, u, v),
    ensures
        forall|x: int, y: int| linked(a, x, y) <==> #[trigger] linked(b, x, y),
{
    assert forall|x: int, y: int| linked(a, x, y) <==> #[trigger] linked(b, x, y) by {
        if linked(a, x, y) {
            assert forall|u: int, v: int| #[trigger] a(u, v) implies linked(b, u, v) by {
                assert(touches(a, u, v));
                lemma_linked_edge(b, u, v);
            }
            lemma_linked_through(a, b, x, y);
        }
        if linked(b, x, y) {
            assert forall|u: int, v: int| #[trigger] b(u, v) implies linked(a, u, v) by {
                assert(touches(b, u, v));
                lemma_linked_edge(a, u, v);
            }
            lemma_linked_through(b, a, x, y);
        }
    }
}

} // verus!
