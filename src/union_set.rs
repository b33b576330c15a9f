//! A disjoint-set forest with path compression and union by size.

use vstd::prelude::*;
use vstd::set_lib::{lemma_int_range, lemma_len_subset, set_int_range};

use crate::connectivity::{
    lemma_linked_edge, lemma_linked_keeps_label, lemma_linked_mono, lemma_linked_refl,
    lemma_linked_symm, lemma_linked_trans, linked, touches,
};

verus! {

/// `reps` with every element of the class `gone` moved into the class `keep`.
pub open spec fn merged(reps: Seq<int>, keep: int, gone: int) -> Seq<int> {
    Seq::new(reps.len(), |x: int| if reps[x] == gone { keep } else { reps[x] })
}

/// The partition of `0..n` into singletons.
pub open spec fn singletons(n: nat) -> Seq<int> {
    Seq::new(n, |x: int| x)
}

/// The representatives and sizes after `join(i, j)`: nothing changes when `i` and `j`
/// already share a class; otherwise the root of the larger class (the root of `i`'s
/// class on a tie) absorbs the other class.
pub open spec fn join_result(reps: Seq<int>, sizes: Seq<usize>, i: int, j: int) -> (Seq<int>, Seq<usize>) {
    let ri = reps[i];
    let rj = reps[j];
    if ri == rj {
        (reps, sizes)
    } else if sizes[ri] >= sizes[rj] {
        (merged(reps, ri, rj), sizes.update(ri, (sizes[ri] + sizes[rj]) as usize))
    } else {
        (merged(reps, rj, ri), sizes.update(rj, (sizes[ri] + sizes[rj]) as usize))
    }
}

/// The members of the class whose representative is `r`.
pub open spec fn class_of(reps: Seq<int>, r: int) -> Set<int> {
    Set::new(|y: int| 0 <= y < reps.len() && reps[y] == r)
}

/// A class has finitely many members, at most one per element.
pub proof fn lemma_class_finite(reps: Seq<int>, r: int)
    ensures
        class_of(reps, r).finite(),
        class_of(reps, r).len() <= reps.len(),
{
    lemma_int_range(0, reps.len() as int);
    lemma_len_subset(class_of(reps, r), set_int_range(0, reps.len() as int));
}

/// `p` is the walk along the parent pointers `par` from `x` up to a root.
pub open spec fn parent_chain(par: Seq<usize>, x: int, p: Seq<usize>) -> bool {
    &&& p.len() > 0
    &&& p[0] == x
    &&& forall|k: int| 0 <= k < p.len() ==> (#[trigger] p[k]) < par.len()
    &&& forall|k: int| 0 <= k < p.len() - 1 ==> p[k + 1] == par[#[trigger] p[k] as int]
    &&& par[p.last() as int] == p.last()
}

/// Following the parent pointers `par` from `x` leads to `y`.
pub open spec fn reaches(par: Seq<usize>, x: int, y: int) -> bool {
    exists|q: Seq<usize>| #[trigger] walk(par, q) && q[0] == x && q.last() == y
}

/// `q` is a nonempty walk along the parent pointers `par`.
pub open spec fn walk(par: Seq<usize>, q: Seq<usize>) -> bool {
    &&& q.len() > 0
    &&& forall|k: int| 0 <= k < q.len() - 1 ==> q[k + 1] == par[#[trigger] q[k] as int]
}

/// Every node of a parent chain from `x` is reached from `x`.
proof fn lemma_chain_reaches(par: Seq<usize>, x: int, p: Seq<usize>, k: int)
    requires
        parent_chain(par, x, p),
        0 <= k < p.len(),
    ensures
        reaches(par, x, p[k] as int),
{
    let q = p.take(k + 1);
    assert forall|m: int| 0 <= m < q.len() - 1 implies q[m + 1] == par[#[trigger] q[m] as int] by {
        assert(q[m] == p[m] && q[m + 1] == p[m + 1]);
    }
    assert(walk(par, q));
}

/// After compressing the chain `p` of `i` onto its root, every node of a parent
/// chain from `j` was reached from `i` or from `j` before.
proof fn lemma_second_chain(old_par: Seq<usize>, mid: Seq<usize>, i: int, j: int, p: Seq<usize>, q: Seq<usize>, k: int)
    requires
        parent_chain(old_par, i, p),
        mid.len() == old_par.len(),
        forall|y: int| 0 <= y < old_par.len() ==>
            #[trigger] mid[y] == if p.contains(y as usize) { p.last() } else { old_par[y] },
        parent_chain(mid, j, q),
        0 <= k < q.len(),
    ensures
        reaches(old_par, i, q[k] as int) || reaches(old_par, j, q[k] as int),
    decreases k,
{
    if k == 0 {
        let w = seq![j as usize];
        assert(walk(old_par, w));
        assert(q[0] == j);
    } else {
        lemma_second_chain(old_par, mid, i, j, p, q, k - 1);
        let z = q[k - 1];
        assert(q[k] == mid[z as int]);
        assert(z < old_par.len());
        if p.contains(z) {
            lemma_chain_reaches(old_par, i, p, p.len() - 1);
        } else {
            let from = if reaches(old_par, i, z as int) { i } else { j };
            let w = choose|w: Seq<usize>| #[trigger] walk(old_par, w) && w[0] == from && w.last() == z;
            let w2 = w.push(q[k]);
            assert forall|m: int| 0 <= m < w2.len() - 1 implies w2[m + 1] == old_par[#[trigger] w2[m] as int] by {
                if m < w.len() - 1 {
                    assert(w2[m] == w[m] && w2[m + 1] == w[m + 1]);
                }
            }
            assert(walk(old_par, w2));
        }
    }
}

/// `x` and `y` are in one class of `reps`.
pub open spec fn same(reps: Seq<int>, x: int, y: int) -> bool {
    reps[x] == reps[y]
}

pub struct UnionSet {
    parent: Vec<usize>,
    size: Vec<usize>,
    rep: Ghost<Seq<int>>,
    rank: Ghost<Seq<nat>>,
    top: Ghost<nat>,
}

impl View for UnionSet {
    type V = Seq<int>;

    /// The representative of each element's class.
    closed spec fn view(&self) -> Seq<int> {
        self.rep@
    }
}

impl UnionSet {
    /// The size recorded for each element; it is the size of the class at a representative.
    pub closed spec fn sizes(&self) -> Seq<usize> {
        self.size@
    }

    pub closed spec fn wf(&self) -> bool {
        let n = self.parent@.len();
        &&& self.size@.len() == n
        &&& self.rep@.len() == n
        &&& self.rank@.len() == n
        &&& n <= usize::MAX
        &&& forall|r: int| 0 <= r < n && #[trigger] self.rep@[r] == r ==>
            self.size@[r] as int == class_of(self.rep@, r).len()
        &&& forall|x: int| 0 <= x < n ==> {
            &&& (#[trigger] self.parent@[x] as int) < n
            &&& 0 <= self.rep@[x] < n
            &&& self.rep@[self.rep@[x]] == self.rep@[x]
            &&& self.parent@[self.rep@[x]] == self.rep@[x]
            &&& self.rep@[self.parent@[x] as int] == self.rep@[x]
            &&& (self.parent@[x] == x ==> self.rep@[x] == x)
            &&& (self.parent@[x] != x ==> self.rank@[x] < self.rank@[self.parent@[x] as int])
            &&& (self.parent@[x] != x ==> self.rank@[x] < self.rank@[self.rep@[x]])
            &&& self.rank@[x] <= self.top@
        }
    }

    /// The representatives form a well-formed partition.
    pub proof fn lemma_reps_ok(&self)
        requires
            self.wf(),
        ensures
            reps_ok(self@, self.len()),
            self.sizes().len() == self.len(),
    {
        assert forall|x: int| 0 <= x < self.len() implies 0 <= #[trigger] self@[x] < self.len() && self@[self@[x]] == self@[x] by {
            assert(self.parent@[x] < self.len());
        }
    }

    /// The size recorded at each representative counts the members of its class.
    pub proof fn lemma_sizes_count(&self)
        requires
            self.wf(),
        ensures
            forall|r: int| 0 <= r < self.len() && #[trigger] self@[r] == r ==>
                self.sizes()[r] as int == class_of(self@, r).len(),
    {
    }

    /// A parent chain stays in one class and ends at its representative.
    pub proof fn lemma_chain_root(&self, x: int, p: Seq<usize>)
        requires
            self.wf(),
            parent_chain(self.parents(), x, p),
        ensures
            p.last() == self@[x],
            forall|k: int| 0 <= k < p.len() ==> self@[#[trigger] p[k] as int] == self@[x],
    {
        assert forall|k: int| 0 <= k < p.len() implies self@[#[trigger] p[k] as int] == self@[x] by {
            self.lemma_chain_class(x, p, k);
        }
        let l = p.last() as int;
        assert(self.parent@[l] < self.len());
    }

    proof fn lemma_chain_class(&self, x: int, p: Seq<usize>, k: int)
        requires
            self.wf(),
            parent_chain(self.parents(), x, p),
            0 <= k < p.len(),
        ensures
            self@[p[k] as int] == self@[x],
        decreases k,
    {
        if k > 0 {
            self.lemma_chain_class(x, p, k - 1);
            let z = p[k - 1] as int;
            assert(self.parent@[z] < self.len());
        }
    }

    /// The parent pointers of the forest.
    pub closed spec fn parents(&self) -> Seq<usize> {
        self.parent@
    }

    /// The number of elements.
    pub open spec fn len(&self) -> nat {
        self@.len()
    }

    /// `n` singleton classes, each of size one.
    pub fn new(n: usize) -> (r: Self)
        ensures
            r.wf(),
            r.len() == n,
            r@ == singletons(n as nat),
            r.sizes() == Seq::new(n as nat, |x: int| 1usize),
    {
        let mut parent: Vec<usize> = Vec::new();
        let mut size: Vec<usize> = Vec::new();
        let mut k: usize = 0;
        while k < n
            invariant
                k <= n,
                parent@ == Seq::new(k as nat, |x: int| x as usize),
                size@ == Seq::new(k as nat, |x: int| 1usize),
            decreases n - k,
        {
            parent.push(k);
            size.push(1);
            k = k + 1;
        }
        let r = UnionSet {
            parent,
            size,
            rep: Ghost(singletons(n as nat)),
            rank: Ghost(Seq::new(n as nat, |x: int| 0nat)),
            top: Ghost(0nat),
        };
        assert(r@ =~= singletons(n as nat));
        assert forall|x: int| 0 <= x < n && #[trigger] r.rep@[x] == x implies
            r.size@[x] as int == class_of(r.rep@, x).len() by {
            assert(class_of(r.rep@, x) =~= set![x]);
        }
        r
    }

    /// The representative of `x`'s class; every node on the way to it is
    /// repointed at it.
    pub fn find(&mut self, x: usize) -> (r: usize)
        requires
            old(self).wf(),
            x < old(self).len(),
        ensures
            final(self).wf(),
            final(self).len() == old(self).len(),
            final(self)@ == old(self)@,
            final(self).sizes() == old(self).sizes(),
            r as int == old(self)@[x as int],
            final(self).parents().len() == old(self).parents().len(),
            exists|p: Seq<usize>| #[trigger] parent_chain(old(self).parents(), x as int, p)
                && forall|y: int| 0 <= y < old(self).len() ==>
                    #[trigger] final(self).parents()[y] == if p.contains(y as usize) { r } else { old(self).parents()[y] },
    {
        let mut root: usize = x;
        let ghost mut p: Seq<usize> = seq![x];
        assert(self.parent@[x as int] < self.len());
        while self.parent[root] != root
            invariant
                self.wf(),
                root < self.len(),
                x < self.len(),
                self.rep@[root as int] == self.rep@[x as int],
                p.len() > 0,
                p[0] == x,
                p.last() == root,
                forall|k: int| 0 <= k < p.len() ==> (#[trigger] p[k]) < self.parent@.len(),
                forall|k: int| 0 <= k < p.len() - 1 ==> p[k + 1] == self.parent@[#[trigger] p[k] as int],
                forall|k1: int, k2: int| 0 <= k1 < k2 < p.len() ==>
                    self.rank@[#[trigger] p[k1] as int] < self.rank@[#[trigger] p[k2] as int],
            decreases self.top@ - self.rank@[root as int],
        {
            let next = self.parent[root];
            assert(self.parent@[next as int] < self.len());
            assert(self.parent@[root as int] < self.len());
            proof {
                let p0 = p;
                p = p.push(next);
                assert(self.rank@[root as int] < self.rank@[next as int]);
                assert forall|k1: int, k2: int| 0 <= k1 < k2 < p.len() implies
                    self.rank@[#[trigger] p[k1] as int] < self.rank@[#[trigger] p[k2] as int] by {
                    assert(p[k1] == p0[k1]);
                    if k2 < p0.len() {
                        assert(p[k2] == p0[k2]);
                    } else if k1 < p0.len() - 1 {
                        assert(self.rank@[p0[k1] as int] < self.rank@[p0[p0.len() - 1] as int]);
                    }
                }
                assert forall|k: int| 0 <= k < p.len() - 1 implies p[k + 1] == self.parent@[#[trigger] p[k] as int] by {
                    if k < p0.len() - 1 {
                        assert(p[k] == p0[k] && p[k + 1] == p0[k + 1]);
                    }
                }
            }
            root = next;
        }
        let ghost start = *self;
        let plen = self.parent.len();
        assert(parent_chain(start.parent@, x as int, p));
        let mut cur: usize = x;
        let ghost mut idx: int = 0;
        assert forall|k1: int, k2: int| 0 <= k1 < k2 < p.len() implies p[k1] != p[k2] by {
            assert(start.rank@[p[k1] as int] < start.rank@[p[k2] as int]);
        }
        while cur != root
            invariant
                0 <= idx < p.len(),
                p[idx] == cur,
                parent_chain(start.parent@, x as int, p),
                p.last() == root,
                forall|k1: int, k2: int| 0 <= k1 < k2 < p.len() ==> p[k1] != p[k2],
                self.parent@.len() == start.parent@.len(),
                plen == start.parent@.len(),
                forall|y: int| 0 <= y < start.parent@.len() ==>
                    #[trigger] self.parent@[y] == if p.take(idx).contains(y as usize) { root } else { start.parent@[y] },
                self.wf(),
                self.len() == start.len(),
                self.rep@ == start.rep@,
                self.rank@ == start.rank@,
                self.top@ == start.top@,
                self.size@ == start.size@,
                cur < self.len(),
                root < self.len(),
                self.rep@[cur as int] == root as int,
                self.rep@[root as int] == root as int,
            decreases self.top@ - self.rank@[cur as int],
        {
            let next = self.parent[cur];
            assert(self.parent@[cur as int] != cur);
            assert(self.parent@[next as int] < self.len());
            let ghost before = *self;
            self.parent.set(cur, root);
            assert forall|y: int| 0 <= y < self.len() implies {
                &&& (#[trigger] self.parent@[y] as int) < self.len()
                &&& self.rep@[self.parent@[y] as int] == self.rep@[y]
                &&& self.parent@[self.rep@[y]] == self.rep@[y]
                &&& (self.parent@[y] == y ==> self.rep@[y] == y)
                &&& (self.parent@[y] != y ==> self.rank@[y] < self.rank@[self.parent@[y] as int])
            } by {
                assert(before.parent@[y] < self.len());
            }
            assert(self.parent@[next as int] < self.len());
            proof {
                assert(!p.take(idx).contains(cur)) by {
                    if p.take(idx).contains(cur) {
                        let k = choose|k: int| 0 <= k < idx && #[trigger] p.take(idx)[k] == cur;
                        assert(p[k] == p[idx]);
                    }
                }
                assert(idx < p.len() - 1);
                assert(next == p[idx + 1]);
                assert forall|y: int| 0 <= y < start.parent@.len() implies
                    #[trigger] self.parent@[y] == if p.take(idx + 1).contains(y as usize) { root } else { start.parent@[y] } by {
                    assert(self.parent@[y] == if y == cur { root } else { before.parent@[y] });
                    if p.take(idx + 1).contains(y as usize) && y != cur {
                        let k = choose|k: int| 0 <= k < idx + 1 && #[trigger] p.take(idx + 1)[k] == y as usize;
                        assert(p.take(idx + 1)[k] == p[k]);
                        assert(k != idx);
                        assert(p.take(idx)[k] == p[k]);
                    }
                    if p.take(idx).contains(y as usize) {
                        let k = choose|k: int| 0 <= k < idx && #[trigger] p.take(idx)[k] == y as usize;
                        assert(p.take(idx + 1)[k] == y as usize);
                    }
                    if y == cur {
                        assert(p.take(idx + 1)[idx] == cur);
                    }
                }
                idx = idx + 1;
            }
            cur = next;
        }
        proof {
            if idx < p.len() - 1 {
                assert(p[idx] != p[p.len() - 1]);
            }
            assert(idx == p.len() - 1);
            assert(start.parent@[root as int] == root);
            assert forall|y: int| 0 <= y < start.parent@.len() implies
                #[trigger] self.parent@[y] == if p.contains(y as usize) { root } else { start.parent@[y] } by {
                if p.contains(y as usize) && !p.take(idx).contains(y as usize) {
                    let k = choose|k: int| 0 <= k < p.len() && #[trigger] p[k] == y as usize;
                    if k < idx {
                        assert(p.take(idx)[k] == y as usize);
                    } else {
                        assert(k == idx);
                        assert(y == root);
                    }
                }
                if p.take(idx).contains(y as usize) {
                    let k = choose|k: int| 0 <= k < idx && #[trigger] p.take(idx)[k] == y as usize;
                    assert(p[k] == y as usize);
                }
            }
            assert(parent_chain(old(self).parents(), x as int, p));
        }
        root
    }

    /// Merges the classes of `i` and `j`; see `join_result`.
    #[verifier::spinoff_prover]
    #[verifier::rlimit(40)]
    pub fn join(&mut self, i: usize, j: usize)
        requires
            old(self).wf(),
            i < old(self).len(),
            j < old(self).len(),
        ensures
            final(self).wf(),
            final(self).len() == old(self).len(),
            (final(self)@, final(self).sizes()) == join_result(old(self)@, old(self).sizes(), i as int, j as int),
            forall|x: int, y: int| 0 <= x < old(self).len() && 0 <= y < old(self).len() ==>
                (same(final(self)@, x, y) <==> (same(old(self)@, x, y)
                    || (same(old(self)@, x, i as int) && same(old(self)@, y, j as int))
                    || (same(old(self)@, x, j as int) && same(old(self)@, y, i as int)))),
            final(self).parents().len() == old(self).parents().len(),
            forall|y: int| 0 <= y < old(self).len() && #[trigger] final(self).parents()[y] != old(self).parents()[y] ==>
                (final(self).parents()[y] as int == old(self)@[y] || final(self).parents()[y] as int == final(self)@[y])
                && (reaches(old(self).parents(), i as int, y) || reaches(old(self).parents(), j as int, y)),
    {
        let ghost s0 = *self;
        let ri = self.find(i);
        let ghost s1 = *self;
        let rj = self.find(j);
        let ghost s2 = *self;
        let ghost reach_ri: bool = reaches(s0.parents(), i as int, ri as int) || reaches(s0.parents(), j as int, ri as int);
        let ghost reach_rj: bool = reaches(s0.parents(), i as int, rj as int) || reaches(s0.parents(), j as int, rj as int);
        proof {
            let p = choose|p: Seq<usize>| #[trigger] parent_chain(s0.parents(), i as int, p)
                && forall|y: int| 0 <= y < s0.len() ==>
                    #[trigger] s1.parents()[y] == if p.contains(y as usize) { ri } else { s0.parents()[y] };
            let q = choose|q: Seq<usize>| #[trigger] parent_chain(s1.parents(), j as int, q)
                && forall|y: int| 0 <= y < s1.len() ==>
                    #[trigger] s2.parents()[y] == if q.contains(y as usize) { rj } else { s1.parents()[y] };
            s0.lemma_chain_root(i as int, p);
            s1.lemma_chain_root(j as int, q);
            lemma_second_chain(s0.parents(), s1.parents(), i as int, j as int, p, q, q.len() - 1);
            lemma_chain_reaches(s0.parents(), i as int, p, p.len() - 1);
            assert(reach_ri && reach_rj);
            assert forall|y: int| 0 <= y < s0.len() && s2.parents()[y] != s0.parents()[y] implies
                s2.parents()[y] as int == s0@[y]
                && (reaches(s0.parents(), i as int, y) || reaches(s0.parents(), j as int, y)) by {
                if p.contains(y as usize) {
                    let k = choose|k: int| 0 <= k < p.len() && #[trigger] p[k] == y as usize;
                    lemma_chain_reaches(s0.parents(), i as int, p, k);
                }
                if q.contains(y as usize) {
                    let k = choose|k: int| 0 <= k < q.len() && #[trigger] q[k] == y as usize;
                    lemma_second_chain(s0.parents(), s1.parents(), i as int, j as int, p, q, k);
                }
            }
        }
        assert(self.parent@[i as int] < self.len() && self.parent@[j as int] < self.len());
        if ri == rj {
            return;
        }
        let si = self.size[ri];
        let sj = self.size[rj];
        let a: usize;
        let b: usize;
        if si >= sj {
            a = ri;
            b = rj;
        } else {
            a = rj;
            b = ri;
        }
        let ghost before = *self;
        assert(self.parent@[a as int] == a && self.parent@[b as int] == b);
        let ghost ca = class_of(before.rep@, a as int);
        let ghost cb = class_of(before.rep@, b as int);
        proof {
            lemma_class_finite(before.rep@, a as int);
            lemma_class_finite(before.rep@, b as int);
            assert(before.rep@[a as int] == a && before.rep@[b as int] == b);
            assert(ca.disjoint(cb));
            vstd::set_lib::lemma_set_disjoint_lens(ca, cb);
            lemma_class_finite(before.rep@, -1);
            lemma_int_range(0, before.rep@.len() as int);
            lemma_len_subset(ca + cb, set_int_range(0, before.rep@.len() as int));
        }
        self.parent.set(b, a);
        self.size.set(a, si + sj);
        let ghost new_rank: nat = if before.rank@[a as int] > before.rank@[b as int] {
            before.rank@[a as int]
        } else {
            before.rank@[b as int] + 1
        };
        self.rep = Ghost(merged(before.rep@, a as int, b as int));
        self.rank = Ghost(before.rank@.update(a as int, new_rank));
        self.top = Ghost(if new_rank > before.top@ { new_rank } else { before.top@ });
        assert forall|x: int| 0 <= x < self.len() implies {
            &&& (#[trigger] self.parent@[x] as int) < self.len()
            &&& 0 <= self.rep@[x] < self.len()
            &&& self.rep@[self.rep@[x]] == self.rep@[x]
            &&& self.parent@[self.rep@[x]] == self.rep@[x]
            &&& self.rep@[self.parent@[x] as int] == self.rep@[x]
            &&& (self.parent@[x] == x ==> self.rep@[x] == x)
            &&& (self.parent@[x] != x ==> self.rank@[x] < self.rank@[self.parent@[x] as int])
            &&& (self.parent@[x] != x ==> self.rank@[x] < self.rank@[self.rep@[x]])
            &&& self.rank@[x] <= self.top@
        } by {
            assert(before.parent@[x] < self.len());
            let p = before.parent@[x] as int;
            assert(before.parent@[p] < self.len());
            let r = before.rep@[x];
            assert(before.parent@[r] < self.len());
        }
        assert(self.size@.len() == self.parent@.len() && self.rep@.len() == self.parent@.len()
            && self.rank@.len() == self.parent@.len());
        assert forall|r: int| 0 <= r < self.len() && #[trigger] self.rep@[r] == r implies
            self.size@[r] as int == class_of(self.rep@, r).len() by {
            if r == a {
                assert(class_of(self.rep@, r) =~= ca + cb);
            } else {
                assert(r != b);
                assert(before.rep@[r] == r);
                assert(class_of(self.rep@, r) =~= class_of(before.rep@, r));
            }
        }
        assert(self.wf());
        assert(reach_ri && reach_rj);
        assert forall|y: int| 0 <= y < s0.len() && #[trigger] self.parents()[y] != s0.parents()[y] implies
            (self.parents()[y] as int == s0@[y] || self.parents()[y] as int == self@[y])
            && (reaches(s0.parents(), i as int, y) || reaches(s0.parents(), j as int, y)) by {
            if y == b {
                assert(self@[y] == a);
            } else {
                assert(self.parents()[y] == s2.parents()[y]);
            }
        }
    }
}

/// Every element points into `0..n` at a representative of its own.
pub open spec fn reps_ok(reps: Seq<int>, n: nat) -> bool {
    &&& reps.len() == n
    &&& forall|x: int| 0 <= x < n ==> 0 <= #[trigger] reps[x] < n && reps[reps[x]] == reps[x]
}

/// The relation whose pairs are exactly the pairs of `joins`.
pub open spec fn joined_by(joins: Seq<(int, int)>) -> spec_fn(int, int) -> bool {
    |u: int, v: int| exists|m: int| 0 <= m < joins.len() && #[trigger] joins[m] == (u, v)
}

/// The representatives and sizes after the calls `join(i, j)`, for each pair of
/// `joins` in order, on `n` singletons.
pub open spec fn after_joins(n: nat, joins: Seq<(int, int)>) -> (Seq<int>, Seq<usize>)
    decreases joins.len(),
{
    if joins.len() == 0 {
        (singletons(n), Seq::new(n, |x: int| 1usize))
    } else {
        let prev = after_joins(n, joins.drop_last());
        let last = joins.last();
        join_result(prev.0, prev.1, last.0, last.1)
    }
}

/// One step of `join_result` keeps the classes well formed and merges exactly the
/// classes of `i` and `j`.
pub proof fn lemma_join_result(reps: Seq<int>, sizes: Seq<usize>, n: nat, i: int, j: int)
    requires
        reps_ok(reps, n),
        sizes.len() == n,
        0 <= i < n,
        0 <= j < n,
    ensures
        reps_ok(join_result(reps, sizes, i, j).0, n),
        join_result(reps, sizes, i, j).1.len() == n,
        forall|x: int, y: int| 0 <= x < n && 0 <= y < n ==>
            (same(join_result(reps, sizes, i, j).0, x, y) <==> (same(reps, x, y)
                || (same(reps, x, i) && same(reps, y, j))
                || (same(reps, x, j) && same(reps, y, i)))),
{
    assert(0 <= reps[i] < n && 0 <= reps[j] < n);
}

/// Where the classes of `reps` are the linked sets of `adj`, and `after` merges the
/// classes of `i` and `j`, the classes of `after` are the linked sets of `adj`
/// with the pair `(i, j)` added.
pub proof fn lemma_join_links(
    adj: spec_fn(int, int) -> bool,
    adj2: spec_fn(int, int) -> bool,
    reps: Seq<int>,
    after: Seq<int>,
    n: nat,
    i: int,
    j: int,
)
    requires
        0 <= i < n,
        0 <= j < n,
        after.len() == n,
        forall|u: int, v: int| #[trigger] adj(u, v) ==> 0 <= u < n && 0 <= v < n,
        forall|u: int, v: int| #[trigger] adj2(u, v) <==> (adj(u, v) || (u == i && v == j)),
        forall|x: int, y: int| 0 <= x < n && 0 <= y < n ==> (same(reps, x, y) <==> linked(adj, x, y)),
        forall|x: int, y: int| 0 <= x < n && 0 <= y < n ==>
            (same(after, x, y) <==> (same(reps, x, y)
                || (same(reps, x, i) && same(reps, y, j))
                || (same(reps, x, j) && same(reps, y, i)))),
    ensures
        forall|x: int, y: int| 0 <= x < n && 0 <= y < n ==> (same(after, x, y) <==> linked(adj2, x, y)),
{
    assert forall|u: int, v: int| #[trigger] adj(u, v) implies adj2(u, v) by {}
    assert(adj2(i, j));
    lemma_linked_edge(adj2, i, j);
    lemma_linked_symm(adj2, i, j);
    assert forall|x: int, y: int| 0 <= x < n && 0 <= y < n implies
        (same(after, x, y) <==> linked(adj2, x, y)) by {
        if same(after, x, y) {
            if same(reps, x, y) {
                lemma_linked_mono(adj, adj2, x, y);
            } else if same(reps, x, i) && same(reps, y, j) {
                lemma_linked_mono(adj, adj2, x, i);
                lemma_linked_mono(adj, adj2, j, y);
                lemma_linked_trans(adj2, x, i, j);
                lemma_linked_trans(adj2, x, j, y);
            } else {
                lemma_linked_mono(adj, adj2, x, j);
                lemma_linked_mono(adj, adj2, i, y);
                lemma_linked_trans(adj2, x, j, i);
                lemma_linked_trans(adj2, x, i, y);
            }
        }
        if linked(adj2, x, y) {
            let label = |u: int| if 0 <= u < n { after[u] } else { u };
            assert forall|u: int, v: int| #[trigger] adj2(u, v) implies label(u) == label(v) by {
                if adj(u, v) {
                    assert(touches(adj, u, v));
                    lemma_linked_edge(adj, u, v);
                    assert(same(reps, u, v));
                    assert(same(after, u, v));
                } else {
                    assert(same(reps, i, i) && same(reps, j, j));
                    assert(same(after, i, j));
                }
            }
            lemma_linked_keeps_label(adj2, label, x, y);
        }
    }
}

/// Union-find answers connectivity: after any sequence of joins on `n` singletons,
/// two elements share a representative exactly when a chain of joined pairs
/// connects them.
pub proof fn lemma_joins_connect(n: nat, joins: Seq<(int, int)>)
    requires
        forall|m: int| 0 <= m < joins.len() ==> 0 <= (#[trigger] joins[m]).0 < n && 0 <= joins[m].1 < n,
    ensures
        reps_ok(after_joins(n, joins).0, n),
        after_joins(n, joins).1.len() == n,
        forall|x: int, y: int| 0 <= x < n && 0 <= y < n ==>
            (same(after_joins(n, joins).0, x, y) <==> linked(joined_by(joins), x, y)),
    decreases joins.len(),
{
    let adj2 = joined_by(joins);
    if joins.len() == 0 {
        assert forall|x: int, y: int| 0 <= x < n && 0 <= y < n implies
            (same(after_joins(n, joins).0, x, y) <==> linked(adj2, x, y)) by {
            if x == y {
                lemma_linked_refl(adj2, x);
            }
            if linked(adj2, x, y) {
                let label = |u: int| u;
                assert forall|u: int, v: int| #[trigger] adj2(u, v) implies label(u) == label(v) by {
                    let m = choose|m: int| 0 <= m < joins.len() && #[trigger] joins[m] == (u, v);
                }
                lemma_linked_keeps_label(adj2, label, x, y);
            }
        }
    } else {
        let prev = joins.drop_last();
        let adj = joined_by(prev);
        lemma_joins_connect(n, prev);
        let last = joins.last();
        let st = after_joins(n, prev);
        lemma_join_result(st.0, st.1, n, last.0, last.1);
        assert forall|u: int, v: int| #[trigger] adj(u, v) implies 0 <= u < n && 0 <= v < n by {
            let m = choose|m: int| 0 <= m < prev.len() && #[trigger] prev[m] == (u, v);
            assert(joins[m] == prev[m]);
        }
        assert forall|u: int, v: int| #[trigger] adj2(u, v) <==> (adj(u, v) || (u == last.0 && v == last.1)) by {
            if adj2(u, v) {
                let m = choose|m: int| 0 <= m < joins.len() && #[trigger] joins[m] == (u, v);
                if m < prev.len() {
                    assert(prev[m] == joins[m]);
                }
            }
            if adj(u, v) {
                let m = choose|m: int| 0 <= m < prev.len() && #[trigger] prev[m] == (u, v);
                assert(joins[m] == prev[m]);
            }
            if u == last.0 && v == last.1 {
                assert(joins[joins.len() - 1] == (u, v));
            }
        }
        lemma_join_links(adj, adj2, st.0, after_joins(n, joins).0, n, last.0, last.1);
    }
}

/// Joining two elements that already share a class changes nothing.
pub proof fn lemma_rejoin_changes_nothing(reps: Seq<int>, sizes: Seq<usize>, i: int, j: int)
    requires
        same(reps, i, j),
    ensures
        join_result(reps, sizes, i, j) == (reps, sizes),
{
}

/// The elements that represent their own class: one per class.
pub open spec fn roots(reps: Seq<int>) -> Set<int> {
    Set::new(|x: int| 0 <= x < reps.len() && reps[x] == x)
}

/// There are at most as many classes as elements.
pub proof fn lemma_roots_finite(reps: Seq<int>)
    ensures
        roots(reps).finite(),
        roots(reps).len() <= reps.len(),
{
    lemma_int_range(0, reps.len() as int);
    lemma_len_subset(roots(reps), set_int_range(0, reps.len() as int));
}

/// `n` singletons form `n` classes.
pub proof fn lemma_singletons_roots(n: nat)
    ensures
        roots(singletons(n)).finite(),
        roots(singletons(n)).len() == n,
{
    lemma_int_range(0, n as int);
    assert(roots(singletons(n)) =~= set_int_range(0, n as int));
}

/// Joining two classes leaves one class fewer.
pub proof fn lemma_join_result_roots(reps: Seq<int>, sizes: Seq<usize>, n: nat, i: int, j: int)
    requires
        reps_ok(reps, n),
        sizes.len() == n,
        0 <= i < n,
        0 <= j < n,
        !same(reps, i, j),
    ensures
        roots(join_result(reps, sizes, i, j).0).len() + 1 == roots(reps).len(),
{
    let ri = reps[i];
    let rj = reps[j];
    assert(0 <= ri < n && 0 <= rj < n);
    let after = join_result(reps, sizes, i, j).0;
    let gone = if sizes[ri] >= sizes[rj] { rj } else { ri };
    assert(roots(after) =~= roots(reps).remove(gone)) by {
        assert forall|x: int| roots(after).contains(x) <==> roots(reps).remove(gone).contains(x) by {
            if 0 <= x < n {
                assert(0 <= reps[x] < n);
            }
        }
    }
    lemma_roots_finite(reps);
    assert(roots(reps).contains(gone));
}

/// A single class has a single representative.
pub proof fn lemma_one_class_roots(reps: Seq<int>, n: nat)
    requires
        reps_ok(reps, n),
        n > 0,
        forall|x: int, y: int| 0 <= x < n && 0 <= y < n ==> same(reps, x, y),
    ensures
        roots(reps).len() == 1,
{
    let r = reps[0];
    assert(0 <= r < n);
    assert(same(reps, 0, r));
    assert(roots(reps) =~= set![r]) by {
        assert forall|x: int| roots(reps).contains(x) <==> x == r by {
            if 0 <= x < n {
                assert(same(reps, x, 0));
            }
        }
    }
}

/// Each join merges at most two classes into one: after the joins there are at
/// least `n` classes less one per join.
pub proof fn lemma_joins_leave_classes(n: nat, joins: Seq<(int, int)>)
    requires
        forall|m: int| 0 <= m < joins.len() ==> 0 <= (#[trigger] joins[m]).0 < n && 0 <= joins[m].1 < n,
    ensures
        roots(after_joins(n, joins).0).finite(),
        roots(after_joins(n, joins).0).len() + joins.len() >= n,
    decreases joins.len(),
{
    lemma_roots_finite(after_joins(n, joins).0);
    if joins.len() == 0 {
        lemma_singletons_roots(n);
    } else {
        let prev = joins.drop_last();
        assert forall|m: int| 0 <= m < prev.len() implies 0 <= (#[trigger] prev[m]).0 < n && 0 <= prev[m].1 < n by {
            assert(prev[m] == joins[m]);
        }
        lemma_joins_leave_classes(n, prev);
        lemma_joins_connect(n, prev);
        let st = after_joins(n, prev);
        let last = joins.last();
        assert(joins[joins.len() - 1] == last);
        if !same(st.0, last.0, last.1) {
            lemma_join_result_roots(st.0, st.1, n, last.0, last.1);
        }
    }
}

} // verus!
