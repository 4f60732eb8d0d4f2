//! Dependency ordering of specializations and strongly connected components.
use vstd::prelude::*;
use std::collections::HashSet;
use crate::ir::{
    Core, Tm, Binder, Branch, RecBinder, Builder, free_in, free_in_branches, free_set, RecTm, BranchTm, CaseKind, binder_uniques, group_uniques,
    views, branch_views, group_views, lemma_views, lemma_free_in_branches, lemma_free_in_group,
};
use crate::recursion::{static_params, spec_static_params};
use crate::program::{free_variables, lemma_free_variables_exact, has_unique};

verus! {

broadcast use vstd::std_specs::hash::group_hash_axioms;

/// The uniques free in `core`.
pub fn names(core: &Core) -> (r: HashSet<u32>)
    ensures
        r@ == free_set(core@),
        r@.finite(),
{
    let fv = free_variables(core);
    proof {
        lemma_free_variables_exact(core@);
    }
    let mut r: HashSet<u32> = HashSet::new();
    let mut i: usize = 0;
    while i < fv.len()
        invariant
            i <= fv@.len(),
            r@.finite(),
            forall|u: u32| r@.contains(u) <==> exists|k: int| 0 <= k < i && (#[trigger] fv@[k]).unique == u,
        decreases fv@.len() - i,
    {
        r.insert(fv[i].unique);
        i += 1;
        assert forall|u: u32| (exists|k: int| 0 <= k < i && (#[trigger] fv@[k]).unique == u) implies r@.contains(u) by {
            let k = choose|k: int| 0 <= k < i && (#[trigger] fv@[k]).unique == u;
            if k < i - 1 {
                assert(exists|k2: int| 0 <= k2 < i - 1 && (#[trigger] fv@[k2]).unique == u);
            }
        }
    }
    assert(r@ =~= free_set(core@)) by {
        assert forall|u: u32| r@.contains(u) <==> free_in(core@, u) by {
            assert(has_unique(fv@, u) <==> free_in(core@, u));
        }
    }
    r
}

/// Every edge target is a vertex.
pub open spec fn valid_edges(edges: Seq<Vec<usize>>) -> bool {
    forall|v: int, j: int|
        #![trigger edges[v]@[j]]
        0 <= v < edges.len() && 0 <= j < edges[v]@.len() ==> edges[v]@[j] < edges.len()
}

/// Component `q` of `comps` holds `x`.
pub open spec fn comp_has(comps: Seq<Seq<usize>>, q: int, x: usize) -> bool {
    0 <= q < comps.len() && comps[q].contains(x)
}

/// Some component holds `x`.
pub open spec fn placed(comps: Seq<Seq<usize>>, x: usize) -> bool {
    exists|q: int| #[trigger] comp_has(comps, q, x)
}

/// Some component at position `q` or earlier holds `x`.
pub open spec fn at_or_before(comps: Seq<Seq<usize>>, q: int, x: usize) -> bool {
    exists|p: int| 0 <= p <= q && #[trigger] comp_has(comps, p, x)
}

/// Every edge leaving a component ends in that component or an earlier one.
pub open spec fn dependency_ordered(edges: Seq<Vec<usize>>, comps: Seq<Seq<usize>>) -> bool {
    forall|q: int, i: int, j: int|
        #![trigger comps[q][i], edges[comps[q][i] as int]@[j]]
        0 <= q < comps.len() && 0 <= i < comps[q].len() && 0 <= j
            < edges[comps[q][i] as int]@.len() ==> at_or_before(
            comps,
            q,
            edges[comps[q][i] as int]@[j],
        )
}

/// No vertex occurs twice across and within the components.
pub open spec fn disjoint_components(comps: Seq<Seq<usize>>) -> bool {
    forall|q1: int, i1: int, q2: int, i2: int|
        #![trigger comps[q1][i1], comps[q2][i2]]
        0 <= q1 < comps.len() && 0 <= i1 < comps[q1].len() && 0 <= q2 < comps.len() && 0 <= i2
            < comps[q2].len() && comps[q1][i1] == comps[q2][i2] ==> q1 == q2 && i1 == i2
}

/// Every vertex `0..n` lies in exactly one component; components are
/// non-empty and sorted increasingly.
pub open spec fn partition_of(n: nat, comps: Seq<Seq<usize>>) -> bool {
    &&& disjoint_components(comps)
    &&& forall|v: usize| v < n ==> #[trigger] placed(comps, v)
    &&& forall|q: int, i: int| 0 <= q < comps.len() && 0 <= i < comps[q].len() ==> comps[q][i] < n
    &&& forall|q: int| 0 <= q < comps.len() ==> comps[q].len() > 0
    &&& forall|q: int, i: int, k: int|
        0 <= q < comps.len() && 0 <= i < k < comps[q].len() ==> comps[q][i] < comps[q][k]
}

/// `p` is a path of the graph: vertices joined by edges, first to last.
pub open spec fn is_path(edges: Seq<Vec<usize>>, p: Seq<usize>) -> bool {
    &&& p.len() > 0
    &&& forall|i: int| 0 <= i < p.len() ==> #[trigger] p[i] < edges.len()
    &&& forall|i: int| 0 <= i < p.len() - 1 ==> edges[#[trigger] p[i] as int]@.contains(p[i + 1])
}

/// Following a path never leads to a later component.
proof fn lemma_path_stays_before(edges: Seq<Vec<usize>>, comps: Seq<Seq<usize>>, p: Seq<usize>, q: int)
    requires
        dependency_ordered(edges, comps),
        is_path(edges, p),
        comp_has(comps, q, p[0]),
    ensures
        at_or_before(comps, q, p.last()),
    decreases p.len(),
{
    if p.len() == 1 {
        assert(comp_has(comps, q, p.last()));
    } else {
        let shorter = p.drop_last();
        assert forall|i: int| 0 <= i < shorter.len() - 1 implies edges[#[trigger] shorter[i] as int]@.contains(shorter[i + 1]) by {
            assert(shorter[i + 1] == p[i + 1]);
            assert(shorter[i] == p[i]);
        }
        assert forall|i: int| 0 <= i < shorter.len() implies #[trigger] shorter[i] < edges.len() by {
            assert(shorter[i] == p[i]);
        }
        lemma_path_stays_before(edges, comps, shorter, q);
        let prev = shorter.last();
        let r = choose|r: int| 0 <= r <= q && #[trigger] comp_has(comps, r, prev);
        let i = choose|i: int| 0 <= i < comps[r].len() && comps[r][i] == prev;
        let n = p.len() - 1;
        assert(p[n - 1] == prev);
        assert(edges[p[n - 1] as int]@.contains(p[n]));
        let j = choose|j: int| 0 <= j < edges[prev as int]@.len() && edges[prev as int]@[j] == p[n];
        assert(at_or_before(comps, r, edges[comps[r][i] as int]@[j]));
        let s = choose|s: int| 0 <= s <= r && #[trigger] comp_has(comps, s, p.last());
        assert(comp_has(comps, s, p.last()));
    }
}

/// A vertex lies in at most one component.
proof fn lemma_one_component(comps: Seq<Seq<usize>>, q1: int, q2: int, v: usize)
    requires
        disjoint_components(comps),
        comp_has(comps, q1, v),
        comp_has(comps, q2, v),
    ensures
        q1 == q2,
{
    let i1 = choose|i: int| 0 <= i < comps[q1].len() && comps[q1][i] == v;
    let i2 = choose|i: int| 0 <= i < comps[q2].len() && comps[q2][i] == v;
    assert(comps[q1][i1] == comps[q2][i2]);
}

/// Definitions that reach each other through their dependencies lie in one
/// component: a partition into components ordered by dependency never splits
/// a cycle of definitions.
pub proof fn lemma_cycles_share_a_component(
    edges: Seq<Vec<usize>>,
    comps: Seq<Seq<usize>>,
    there: Seq<usize>,
    back: Seq<usize>,
    q1: int,
    q2: int,
)
    requires
        partition_of(edges.len(), comps),
        dependency_ordered(edges, comps),
        is_path(edges, there),
        is_path(edges, back),
        back[0] == there.last(),
        back.last() == there[0],
        comp_has(comps, q1, there[0]),
        comp_has(comps, q2, there.last()),
    ensures
        q1 == q2,
{
    lemma_path_stays_before(edges, comps, there, q1);
    let s = choose|s: int| 0 <= s <= q1 && #[trigger] comp_has(comps, s, there.last());
    lemma_one_component(comps, s, q2, there.last());
    lemma_path_stays_before(edges, comps, back, q2);
    let t = choose|t: int| 0 <= t <= q2 && #[trigger] comp_has(comps, t, back.last());
    lemma_one_component(comps, t, q1, there[0]);
}

pub open spec fn comp_views(result: Seq<Vec<usize>>) -> Seq<Seq<usize>> {
    Seq::new(result.len(), |q: int| result[q]@)
}

struct Tarjan {
    next: usize,
    indices: Vec<Option<usize>>,
    low: Vec<usize>,
    stack: Vec<usize>,
    active: Vec<bool>,
    result: Vec<Vec<usize>>,
}

impl Tarjan {
    spec fn visited(self, v: int) -> bool {
        self.indices@[v] is Some
    }

    spec fn idx(self, v: int) -> int {
        match self.indices@[v] {
            Some(i) => i as int,
            None => 0,
        }
    }

    spec fn comps(self) -> Seq<Seq<usize>> {
        comp_views(self.result@)
    }

    spec fn in_result(self, w: usize) -> bool {
        placed(self.comps(), w)
    }

    spec fn visited_set(self, n: nat) -> Set<int> {
        Set::new(|v: int| 0 <= v < n && self.visited(v))
    }

    /// Every edge of `x` ends in a finished component, or on the stack at an
    /// index no smaller than `low[x]`.
    spec fn settled(self, edges: Seq<Vec<usize>>, x: int) -> bool {
        forall|j: int|
            #![trigger edges[x]@[j]]
            0 <= j < edges[x]@.len() ==> self.in_result(edges[x]@[j]) || (self.active@[edges[x]@[j] as int]
                && self.low@[x] <= self.idx(edges[x]@[j] as int))
    }

    spec fn wf(self, edges: Seq<Vec<usize>>) -> bool {
        let n = edges.len();
        &&& valid_edges(edges)
        &&& self.indices@.len() == n
        &&& self.low@.len() == n
        &&& self.active@.len() == n
        &&& self.next <= n
        &&& forall|v: int|
            0 <= v < n && #[trigger] self.visited(v) ==> self.idx(v) < self.next && self.low@[v]
                <= self.idx(v)
        &&& forall|v: int, u: int|
            0 <= v < n && 0 <= u < n && v != u && #[trigger] self.visited(v) && #[trigger] self.visited(
                u,
            ) ==> self.idx(v) != self.idx(u)
        &&& self.visited_set(n).finite()
        &&& self.visited_set(n).len() == self.next
        &&& forall|k: int|
            0 <= k < self.stack@.len() ==> (#[trigger] self.stack@[k]) < n && self.visited(
                self.stack@[k] as int,
            )
        &&& forall|k1: int, k2: int|
            0 <= k1 < k2 < self.stack@.len() ==> #[trigger] self.stack@[k1] != #[trigger] self.stack@[k2]
        &&& forall|v: int| 0 <= v < n ==> (#[trigger] self.active@[v] <==> self.stack@.contains(v as usize))
        &&& forall|q: int, i: int|
            0 <= q < self.comps().len() && 0 <= i < self.comps()[q].len() ==> (#[trigger] self.comps()[q][i]) < n
                && self.visited(self.comps()[q][i] as int) && !self.active@[self.comps()[q][i] as int]
        &&& disjoint_components(self.comps())
        &&& forall|q: int| 0 <= q < self.comps().len() ==> (#[trigger] self.comps()[q]).len() > 0
        &&& forall|q: int, i: int, k: int|
            0 <= q < self.comps().len() && 0 <= i < k < self.comps()[q].len() ==> #[trigger] self.comps()[q][i]
                < #[trigger] self.comps()[q][k]
        &&& forall|v: int| 0 <= v < n && #[trigger] self.visited(v) ==> self.active@[v] || self.in_result(v as usize)
        &&& dependency_ordered(edges, self.comps())
    }
}

pub proof fn lemma_set_len_bound(s: Set<int>, n: int)
    requires
        s.finite(),
        0 <= n,
        forall|v: int| s.contains(v) ==> 0 <= v < n,
    ensures
        s.len() <= n,
        s.len() == n ==> forall|v: int| 0 <= v < n ==> s.contains(v),
{
    let r = vstd::set_lib::set_int_range(0, n);
    vstd::set_lib::lemma_int_range(0, n);
    vstd::set_lib::lemma_len_subset(s, r);
    if s.len() == n {
        assert forall|v: int| 0 <= v < n implies s.contains(v) by {
            if !s.contains(v) {
                vstd::set_lib::lemma_len_subset(s.insert(v), r);
            }
        }
    }
}


/// What a finished visit leaves: indices and lows of earlier vertices are
/// untouched, the stack and the finished components only grow.
spec fn grows(old_t: Tarjan, t: Tarjan, n: nat) -> bool {
    &&& t.next >= old_t.next
    &&& forall|x: int| 0 <= x < n && #[trigger] old_t.visited(x) ==> t.visited(x) && t.idx(x) == old_t.idx(x)
        && t.low@[x] == old_t.low@[x]
    &&& forall|x: int| 0 <= x < n && !old_t.visited(x) && #[trigger] t.visited(x) ==> t.idx(x) >= old_t.next
    &&& t.stack@.len() >= old_t.stack@.len()
    &&& t.stack@.take(old_t.stack@.len() as int) == old_t.stack@
    &&& t.comps().len() >= old_t.comps().len()
    &&& forall|q: int| 0 <= q < old_t.comps().len() ==> #[trigger] t.comps()[q] == old_t.comps()[q]
}

proof fn lemma_placed_grows(old_t: Tarjan, t: Tarjan, n: nat, w: usize)
    requires
        grows(old_t, t, n),
        old_t.in_result(w),
    ensures
        t.in_result(w),
{
    let q = choose|q: int| #[trigger] comp_has(old_t.comps(), q, w);
    assert(comp_has(t.comps(), q, w));
}

proof fn lemma_settled_grows(edges: Seq<Vec<usize>>, old_t: Tarjan, t: Tarjan, x: int)
    requires
        old_t.wf(edges),
        t.wf(edges),
        grows(old_t, t, edges.len()),
        0 <= x < edges.len(),
        old_t.visited(x),
        old_t.settled(edges, x),
    ensures
        t.settled(edges, x),
{
    let n = edges.len();
    assert forall|j: int| #![trigger edges[x]@[j]] 0 <= j < edges[x]@.len() implies t.in_result(edges[x]@[j]) || (t.active@[edges[x]@[j] as int]
        && t.low@[x] <= t.idx(edges[x]@[j] as int)) by {
        let w = edges[x]@[j];
        if old_t.in_result(w) {
            lemma_placed_grows(old_t, t, n, w);
        } else {
            let k = choose|k: int| 0 <= k < old_t.stack@.len() && old_t.stack@[k] == w;
            assert(t.stack@.take(old_t.stack@.len() as int)[k] == w);
            assert(t.stack@[k] == w);
            assert(t.stack@.contains(w));
            assert(old_t.visited(w as int));
        }
    }
}

/// Sort a component of distinct vertices increasingly.
fn sort_component(c: Vec<usize>) -> (r: Vec<usize>)
    requires
        forall|i: int, k: int| 0 <= i < k < c@.len() ==> c@[i] != c@[k],
    ensures
        r@.len() == c@.len(),
        forall|x: usize| r@.contains(x) <==> c@.contains(x),
        forall|i: int, k: int| 0 <= i < k < r@.len() ==> r@[i] < r@[k],
{
    let mut r: Vec<usize> = Vec::new();
    let mut i: usize = 0;
    while i < c.len()
        invariant
            i <= c.len(),
            forall|a: int, b: int| 0 <= a < b < c@.len() ==> c@[a] != c@[b],
            r@.len() == i,
            forall|x: usize| r@.contains(x) <==> c@.take(i as int).contains(x),
            forall|a: int, b: int| 0 <= a < b < r@.len() ==> r@[a] < r@[b],
        decreases c.len() - i,
    {
        let x = c[i];
        let mut pos: usize = 0;
        while pos < r.len() && r[pos] < x
            invariant
                pos <= r@.len(),
                forall|a: int| 0 <= a < pos ==> r@[a] < x,
            decreases r.len() - pos,
        {
            pos += 1;
        }
        let ghost before = r@;
        assert(!before.contains(x)) by {
            if before.contains(x) {
                let ct = c@.take(i as int);
                let a = choose|a: int| 0 <= a < ct.len() && ct[a] == x;
                assert(c@[a] == x);
                assert(c@[i as int] == x);
            }
        }
        r.insert(pos, x);
        assert(r@ == before.insert(pos as int, x));
        assert forall|a: int, b: int| 0 <= a < b < r@.len() implies r@[a] < r@[b] by {
            if b < pos {
            } else if b == pos {
                assert(r@[b] == x);
            } else if a < pos {
                assert(r@[b] == before[b - 1]);
                if pos < before.len() {
                    assert(before[pos as int] >= x);
                    assert(before[pos as int] != x);
                    if b - 1 > pos {
                        assert(before[pos as int] < before[b - 1]);
                    }
                }
            } else if a == pos {
                assert(r@[b] == before[b - 1]);
                assert(before[pos as int] >= x);
                assert(before[pos as int] != x);
                if b - 1 > pos {
                    assert(before[pos as int] < before[b - 1]);
                }
            } else {
                assert(r@[a] == before[a - 1]);
                assert(r@[b] == before[b - 1]);
            }
        }
        let ghost ci1 = c@.take(i + 1);
        let ghost ci = c@.take(i as int);
        assert(ci1 =~= ci.push(x));
        assert forall|y: usize| r@.contains(y) <==> ci1.contains(y) by {
            if r@.contains(y) {
                let a = choose|a: int| 0 <= a < r@.len() && r@[a] == y;
                if a < pos {
                    assert(before[a] == y);
                } else if a > pos {
                    assert(before[a - 1] == y);
                }
            }
            if before.contains(y) {
                let a = choose|a: int| 0 <= a < before.len() && before[a] == y;
                if a < pos {
                    assert(r@[a] == y);
                } else {
                    assert(r@[a + 1] == y);
                }
            }
            if y == x {
                assert(r@[pos as int] == y);
            }
            assert(ci1.contains(y) <==> (ci.contains(y) || y == x)) by {
                if ci1.contains(y) {
                    let a = choose|a: int| 0 <= a < ci1.len() && ci1[a] == y;
                    if a < ci.len() {
                        assert(ci[a] == y);
                    }
                }
                if ci.contains(y) {
                    let a = choose|a: int| 0 <= a < ci.len() && ci[a] == y;
                    assert(ci1[a] == y);
                }
                if y == x {
                    assert(ci1[ci.len() as int] == y);
                }
            }
        }
        i += 1;
    }
    assert(c@.take(i as int) =~= c@);
    r
}


/// Facts about the stack segment `seg` that a visit leaves above the
/// vertices it found: each is newly visited, settled, and no lower than `low`.
spec fn segment_ok(edges: Seq<Vec<usize>>, t: Tarjan, seg: Seq<usize>, low: int, start: int) -> bool {
    forall|k: int|
        #![trigger seg[k]]
        0 <= k < seg.len() ==> t.low@[seg[k] as int] >= low && t.idx(seg[k] as int) >= start
            && t.settled(edges, seg[k] as int)
}

proof fn lemma_dependency_ordered_push(edges: Seq<Vec<usize>>, comps: Seq<Seq<usize>>, c: Seq<usize>)
    requires
        dependency_ordered(edges, comps),
        forall|i: int, j: int|
            #![trigger edges[c[i] as int]@[j]]
            0 <= i < c.len() && 0 <= j < edges[c[i] as int]@.len() ==> at_or_before(
                comps.push(c),
                comps.len() as int,
                edges[c[i] as int]@[j],
            ),
    ensures
        dependency_ordered(edges, comps.push(c)),
{
    let cs = comps.push(c);
    assert forall|q: int, i: int, j: int|
        #![trigger cs[q][i], edges[cs[q][i] as int]@[j]]
        0 <= q < cs.len() && 0 <= i < cs[q].len() && 0 <= j < edges[cs[q][i] as int]@.len() implies at_or_before(
        cs,
        q,
        edges[cs[q][i] as int]@[j],
    ) by {
        if q < comps.len() {
            assert(cs[q] == comps[q]);
            assert(at_or_before(comps, q, edges[comps[q][i] as int]@[j]));
            let p = choose|p: int| 0 <= p <= q && #[trigger] comp_has(comps, p, edges[comps[q][i] as int]@[j]);
            assert(comp_has(cs, p, edges[comps[q][i] as int]@[j]));
        } else {
            assert(cs[q] == c);
        }
    }
}

/// Only `low[v]` differs between `a` and `b`; other vertices stay settled.
proof fn lemma_settled_low_update(edges: Seq<Vec<usize>>, a: Tarjan, b: Tarjan, v: int, x: int)
    requires
        b.indices == a.indices,
        b.active == a.active,
        b.result == a.result,
        b.low@.len() == a.low@.len(),
        forall|y: int| 0 <= y < a.low@.len() && y != v ==> b.low@[y] == a.low@[y],
        0 <= x < a.low@.len(),
        x != v,
        a.settled(edges, x),
    ensures
        b.settled(edges, x),
{
    assert(b.comps() == a.comps());
    assert forall|j: int| #![trigger edges[x]@[j]] 0 <= j < edges[x]@.len() implies b.in_result(edges[x]@[j]) || (b.active@[edges[x]@[j] as int]
        && b.low@[x] <= b.idx(edges[x]@[j] as int)) by {
        assert(a.in_result(edges[x]@[j]) || (a.active@[edges[x]@[j] as int]
            && a.low@[x] <= a.idx(edges[x]@[j] as int)));
    }
}

/// Lowering `low[v]` (never below zero, never above its old value) keeps
/// the state well formed and keeps what an enclosing visit relies on.
proof fn lemma_lower_low(edges: Seq<Vec<usize>>, t0: Tarjan, a: Tarjan, b: Tarjan, v: int)
    requires
        a.wf(edges),
        grows(t0, a, edges.len()),
        !t0.visited(v),
        0 <= v < edges.len(),
        b.indices == a.indices,
        b.active == a.active,
        b.result == a.result,
        b.stack == a.stack,
        b.next == a.next,
        b.low@.len() == a.low@.len(),
        forall|y: int| 0 <= y < a.low@.len() && y != v ==> b.low@[y] == a.low@[y],
        b.low@[v] <= a.low@[v],
    ensures
        b.wf(edges),
        grows(t0, b, edges.len()),
        b.comps() == a.comps(),
{
    let n = edges.len();
    assert(b.visited_set(n) =~= a.visited_set(n));
    assert(b.comps() =~= a.comps());
    assert forall|x: int| 0 <= x < n && #[trigger] b.visited(x) implies b.idx(x) < b.next && b.low@[x] <= b.idx(x) by {
        assert(a.visited(x));
    }
    assert forall|x: int| 0 <= x < n && #[trigger] t0.visited(x) implies b.visited(x) && b.idx(x) == t0.idx(x)
        && b.low@[x] == t0.low@[x] by {
        assert(a.visited(x));
        assert(x != v);
    }
    assert forall|x: int| 0 <= x < n && !t0.visited(x) && #[trigger] b.visited(x) implies b.idx(x) >= t0.next by {
        assert(a.visited(x));
    }
    assert forall|q: int, i: int|
        0 <= q < b.comps().len() && 0 <= i < b.comps()[q].len() implies (#[trigger] b.comps()[q][i]) < n
            && b.visited(b.comps()[q][i] as int) && !b.active@[b.comps()[q][i] as int] by {
        assert(a.visited(a.comps()[q][i] as int));
    }
    assert forall|x: int| 0 <= x < n && #[trigger] b.visited(x) implies b.active@[x] || b.in_result(x as usize) by {
        assert(a.visited(x));
    }
    assert forall|k: int| 0 <= k < b.stack@.len() implies (#[trigger] b.stack@[k]) < n && b.visited(b.stack@[k] as int) by {
        assert(a.visited(a.stack@[k] as int));
    }
    assert forall|x: int, u: int|
        0 <= x < n && 0 <= u < n && x != u && #[trigger] b.visited(x) && #[trigger] b.visited(u) implies b.idx(x) != b.idx(u) by {
        assert(a.visited(x) && a.visited(u));
    }
    assert forall|x: int| 0 <= x < n implies (#[trigger] b.active@[x] <==> b.stack@.contains(x as usize)) by {
        assert(a.active@[x] <==> a.stack@.contains(x as usize));
    }
    assert(disjoint_components(b.comps()));
    assert(dependency_ordered(edges, b.comps()));
}

proof fn lemma_grows_trans(a: Tarjan, b: Tarjan, c: Tarjan, n: nat)
    requires
        grows(a, b, n),
        grows(b, c, n),
    ensures
        grows(a, c, n),
{
    assert forall|x: int| 0 <= x < n && #[trigger] a.visited(x) implies c.visited(x) && c.idx(x) == a.idx(x)
        && c.low@[x] == a.low@[x] by {
        assert(b.visited(x));
    }
    assert forall|x: int| 0 <= x < n && !a.visited(x) && #[trigger] c.visited(x) implies c.idx(x) >= a.next by {
        if b.visited(x) {
        } else {
            assert(c.visited(x));
        }
    }
    assert forall|q: int| 0 <= q < a.comps().len() implies #[trigger] c.comps()[q] == a.comps()[q] by {
        assert(b.comps()[q] == a.comps()[q]);
    }
    assert(c.stack@.take(a.stack@.len() as int) =~= a.stack@) by {
        assert forall|i: int| 0 <= i < a.stack@.len() implies c.stack@[i] == a.stack@[i] by {
            assert(b.stack@.take(a.stack@.len() as int)[i] == a.stack@[i]);
            assert(c.stack@.take(b.stack@.len() as int)[i] == b.stack@[i]);
        }
    }
}

/// `val` is no smaller than the index of some vertex that was on the stack of
/// `t0`, or than every index handed out after `t0`.
spec fn bounded(t0: Tarjan, t: Tarjan, val: int) -> bool {
    val >= t0.next || exists|k: int| 0 <= k < t0.stack@.len() && val >= t.idx(#[trigger] t0.stack@[k] as int)
}

/// A bound relative to an inner visit's stack is a bound relative to the
/// outer one, when the inner stack extends the outer stack by new vertices.
proof fn lemma_bounded_transfer(edges: Seq<Vec<usize>>, t0: Tarjan, tb: Tarjan, ta: Tarjan, val: int)
    requires
        t0.wf(edges),
        grows(t0, tb, edges.len()),
        grows(tb, ta, edges.len()),
        forall|k: int| t0.stack@.len() <= k < tb.stack@.len() ==> tb.idx(#[trigger] tb.stack@[k] as int) >= t0.next,
        forall|k: int| 0 <= k < tb.stack@.len() ==> tb.visited(#[trigger] tb.stack@[k] as int) && tb.stack@[k] < edges.len(),
        bounded(tb, ta, val),
    ensures
        bounded(t0, ta, val),
{
    if val < tb.next {
        let k = choose|k: int| 0 <= k < tb.stack@.len() && val >= ta.idx(#[trigger] tb.stack@[k] as int);
        let x = tb.stack@[k];
        assert(ta.idx(x as int) == tb.idx(x as int));
        if k < t0.stack@.len() {
            assert(tb.stack@.take(t0.stack@.len() as int)[k] == t0.stack@[k]);
            assert(t0.stack@[k] == x);
            assert(t0.visited(x as int));
            lemma_grows_trans(t0, tb, ta, edges.len());
            assert(ta.idx(t0.stack@[k] as int) == t0.idx(x as int));
        }
    }
}

/// Pop the component rooted at `v` off the stack and record it.
fn close_component(
    edges: &Vec<Vec<usize>>,
    t: &mut Tarjan,
    v: usize,
    index: usize,
    Ghost(t0): Ghost<Tarjan>,
    Ghost(base): Ghost<int>,
    Ghost(prefix): Ghost<Seq<usize>>,
)
    requires
        old(t).wf(edges@),
        t0.wf(edges@),
        v < edges@.len(),
        !t0.visited(v as int),
        old(t).visited(v as int),
        old(t).idx(v as int) == index,
        index == t0.next,
        old(t).low@[v as int] == index,
        base == t0.stack@.len() + 1,
        prefix == t0.stack@.push(v),
        old(t).stack@.len() >= base,
        old(t).stack@.take(base) == prefix,
        grows(t0, *old(t), edges@.len()),
        old(t).settled(edges@, v as int),
        segment_ok(edges@, *old(t), old(t).stack@.skip(base), index as int, index + 1),
    ensures
        final(t).wf(edges@),
        grows(t0, *final(t), edges@.len()),
        final(t).in_result(v),
        final(t).stack@ == t0.stack@,
        final(t).low == old(t).low,
        final(t).indices == old(t).indices,
        final(t).next == old(t).next,
{
    let ghost n = edges@.len();
    let count = edges.len();
    let ghost tp = *t;
    let ghost p = t.stack@;
    proof {
        assert(n <= usize::MAX);
        assert(p.take(base) == prefix);
        assert(p[base - 1] == v) by {
            assert(prefix[base - 1] == v);
        }
    }
    let mut component: Vec<usize> = Vec::new();
    loop
        invariant_except_break
            t.stack@.len() >= base,
            t.stack@ == p.take(t.stack@.len() as int),
            component@.len() == p.len() - t.stack@.len(),
            forall|i: int| 0 <= i < component@.len() ==> component@[i] == p[p.len() - 1 - i],
            t.indices == tp.indices,
            t.low == tp.low,
            t.next == tp.next,
            t.result == tp.result,
            t.active@.len() == n,
            forall|x: int| 0 <= x < n ==> (#[trigger] t.active@[x] <==> t.stack@.contains(x as usize)),
            forall|k1: int, k2: int| 0 <= k1 < k2 < p.len() ==> #[trigger] p[k1] != #[trigger] p[k2],
            p[base - 1] == v,
            p.len() >= base,
            base >= 1,
            n <= usize::MAX,
            forall|kk: int| 0 <= kk < p.len() ==> (#[trigger] p[kk]) < n,
        ensures
            t.stack@ == p.take(base - 1),
            component@.len() == p.len() - (base - 1),
            forall|i: int| 0 <= i < component@.len() ==> component@[i] == p[p.len() - 1 - i],
            t.indices == tp.indices,
            t.low == tp.low,
            t.next == tp.next,
            t.result == tp.result,
            t.active@.len() == n,
            forall|x: int| 0 <= x < n ==> (#[trigger] t.active@[x] <==> t.stack@.contains(x as usize)),
        decreases t.stack@.len(),
    {
        let ghost before = t.stack@;
        assert(before.len() >= 1);
        assert(before[before.len() - 1] == p[before.len() - 1]);
        let w = t.stack.pop().unwrap();
        t.active.set(w, false);
        component.push(w);
        proof {
            assert(w == p[before.len() - 1]);
            assert(t.stack@ =~= p.take(t.stack@.len() as int));
            assert forall|x: int| 0 <= x < n implies (#[trigger] t.active@[x] <==> t.stack@.contains(x as usize)) by {
                let xu = x as usize;
                if t.stack@.contains(xu) {
                    let j = choose|j: int| 0 <= j < t.stack@.len() && t.stack@[j] == xu;
                    assert(before[j] == xu);
                    assert(before.contains(xu));
                    assert(xu != w);
                }
                if x != w && before.contains(xu) {
                    assert(xu as int == x);
                    let j = choose|j: int| 0 <= j < before.len() && before[j] == xu;
                    assert(j != before.len() - 1);
                    assert(t.stack@[j] == xu);
                }
            }
        }
        if w == v {
            proof {
                assert(before.len() - 1 == base - 1);
            }
            break;
        }
        proof {
            assert(before.len() - 1 != base - 1);
        }
    }
    let ghost popped = p.skip(base - 1);
    proof {
        assert forall|i: int, j: int| 0 <= i < j < component@.len() implies component@[i] != component@[j] by {
            assert(p[p.len() - 1 - i] != p[p.len() - 1 - j]);
        }
    }
    let sorted = sort_component(component);
    proof {
        assert forall|x: usize| sorted@.contains(x) <==> popped.contains(x) by {
            if sorted@.contains(x) {
                let i = choose|i: int| 0 <= i < component@.len() && component@[i] == x;
                assert(popped[p.len() - 1 - i - (base - 1)] == x);
            }
            if popped.contains(x) {
                let i = choose|i: int| 0 <= i < popped.len() && popped[i] == x;
                assert(component@[p.len() - 1 - (i + base - 1)] == x);
                assert(component@.contains(x));
            }
        }
    }
    let ghost c = sorted@;
    t.result.push(sorted);
    proof {
        assert(t.comps() =~= tp.comps().push(c));
        assert(prefix.take(base - 1) =~= t0.stack@);
        assert(p.take(base - 1) =~= t0.stack@) by {
            assert forall|i: int| 0 <= i < base - 1 implies p[i] == t0.stack@[i] by {
                assert(p.take(base)[i] == prefix[i]);
            }
        }
        assert(t.stack@ == t0.stack@);
        assert(t.visited_set(n) =~= tp.visited_set(n));
        // where the popped vertices come from
        assert forall|x: usize| #[trigger] c.contains(x) implies tp.stack@.contains(x) && !t.stack@.contains(x) && x < n by {
            assert(popped.contains(x));
            let i = choose|i: int| 0 <= i < popped.len() && popped[i] == x;
            assert(p[i + (base - 1)] == x);
            assert(tp.stack@.contains(x));
            if t.stack@.contains(x) {
                let j = choose|j: int| 0 <= j < t.stack@.len() && t.stack@[j] == x;
                assert(p.take(base - 1)[j] == x);
                assert(p[j] == x);
            }
        }
        assert forall|x: int| 0 <= x < n && #[trigger] t.active@[x] implies tp.active@[x] by {
            let j = choose|j: int| 0 <= j < t.stack@.len() && t.stack@[j] == x as usize;
            assert(p.take(base - 1)[j] == x as usize);
            assert(tp.stack@[j] == x as usize);
        }
        // wf: stack
        assert forall|kk: int| 0 <= kk < t.stack@.len() implies (#[trigger] t.stack@[kk]) < n && t.visited(t.stack@[kk] as int) by {
            assert(t0.visited(t0.stack@[kk] as int));
        }
        assert forall|k1: int, k2: int| 0 <= k1 < k2 < t.stack@.len() implies #[trigger] t.stack@[k1] != #[trigger] t.stack@[k2] by {
            assert(t0.stack@[k1] != t0.stack@[k2]);
        }
        // wf: components
        assert forall|q: int, i: int|
            0 <= q < t.comps().len() && 0 <= i < t.comps()[q].len() implies (#[trigger] t.comps()[q][i]) < n
                && t.visited(t.comps()[q][i] as int) && !t.active@[t.comps()[q][i] as int] by {
            let x = t.comps()[q][i];
            if q < tp.comps().len() {
                assert(tp.comps()[q][i] == x);
                if t.active@[x as int] {
                    assert(tp.active@[x as int]);
                }
            } else {
                assert(c[i] == x);
                assert(c.contains(x));
                assert(tp.stack@.contains(x));
                let j = choose|j: int| 0 <= j < tp.stack@.len() && tp.stack@[j] == x;
                assert(tp.visited(x as int));
            }
        }
        assert(disjoint_components(t.comps())) by {
            let cs = t.comps();
            assert forall|q1: int, i1: int, q2: int, i2: int|
                #![trigger cs[q1][i1], cs[q2][i2]]
                0 <= q1 < cs.len() && 0 <= i1 < cs[q1].len() && 0 <= q2 < cs.len() && 0 <= i2
                    < cs[q2].len() && cs[q1][i1] == cs[q2][i2] implies q1 == q2 && i1 == i2 by {
                let last = tp.comps().len() as int;
                if q1 == last && q2 == last {
                    if i1 < i2 {
                        assert(c[i1] < c[i2]);
                    } else if i2 < i1 {
                        assert(c[i2] < c[i1]);
                    }
                } else if q1 == last {
                    assert(c.contains(cs[q1][i1]));
                    assert(tp.stack@.contains(cs[q1][i1]));
                    assert(tp.comps()[q2][i2] == cs[q2][i2]);
                    assert(!tp.active@[tp.comps()[q2][i2] as int]);
                } else if q2 == last {
                    assert(c.contains(cs[q2][i2]));
                    assert(tp.stack@.contains(cs[q2][i2]));
                    assert(tp.comps()[q1][i1] == cs[q1][i1]);
                    assert(!tp.active@[tp.comps()[q1][i1] as int]);
                } else {
                    assert(tp.comps()[q1][i1] == cs[q1][i1]);
                    assert(tp.comps()[q2][i2] == cs[q2][i2]);
                }
            }
        }
        assert forall|x: int| 0 <= x < n && #[trigger] t.visited(x) implies t.active@[x] || t.in_result(x as usize) by {
            assert(tp.visited(x));
            let xu = x as usize;
            if tp.in_result(xu) {
                let q = choose|q: int| #[trigger] comp_has(tp.comps(), q, xu);
                assert(comp_has(t.comps(), q, xu));
            } else {
                assert(tp.stack@.contains(xu));
                let j = choose|j: int| 0 <= j < p.len() && p[j] == xu;
                if j < base - 1 {
                    assert(t.stack@[j] == xu);
                } else {
                    assert(popped[j - (base - 1)] == xu);
                    assert(popped.contains(xu));
                    assert(c.contains(xu));
                    let i = choose|i: int| 0 <= i < c.len() && c[i] == xu;
                    assert(comp_has(t.comps(), tp.comps().len() as int, xu));
                }
            }
        }
        // dependency order of the new component
        let seg = p.skip(base);
        assert forall|i: int, j: int|
            #![trigger edges@[c[i] as int]@[j]]
            0 <= i < c.len() && 0 <= j < edges@[c[i] as int]@.len() implies at_or_before(
                tp.comps().push(c),
                tp.comps().len() as int,
                edges@[c[i] as int]@[j],
            ) by {
            let x = c[i];
            let w = edges@[x as int]@[j];
            assert(c.contains(x));
            assert(popped.contains(x));
            let pi = choose|pi: int| 0 <= pi < popped.len() && popped[pi] == x;
            assert(p[pi + base - 1] == x);
            let cs = tp.comps().push(c);
            assert(tp.settled(edges@, x as int)) by {
                if pi > 0 {
                    assert(seg[pi - 1] == x);
                } else {
                    assert(x == v);
                }
            }
            assert(tp.low@[x as int] >= index) by {
                if pi > 0 {
                    assert(seg[pi - 1] == x);
                }
            }
            if tp.in_result(w) {
                let q = choose|q: int| #[trigger] comp_has(tp.comps(), q, w);
                assert(comp_has(cs, q, w));
            } else {
                assert(tp.active@[w as int]);
                assert(tp.low@[x as int] <= tp.idx(w as int));
                assert(tp.stack@.contains(w));
                let jw = choose|jw: int| 0 <= jw < p.len() && p[jw] == w;
                if jw < base - 1 {
                    assert(t0.stack@[jw] == w);
                    assert(t0.visited(w as int));
                    assert(tp.idx(w as int) == t0.idx(w as int));
                    assert(false);
                } else {
                    assert(popped[jw - (base - 1)] == w);
                    assert(popped.contains(w));
                    assert(c.contains(w));
                    assert(comp_has(cs, tp.comps().len() as int, w));
                }
            }
        }
        lemma_dependency_ordered_push(edges@, tp.comps(), c);
        // grows from the start of this visit
        assert forall|x: int| 0 <= x < n && #[trigger] t0.visited(x) implies t.visited(x) && t.idx(x) == t0.idx(x)
            && t.low@[x] == t0.low@[x] by {
            assert(tp.visited(x));
        }
        assert forall|x: int| 0 <= x < n && !t0.visited(x) && #[trigger] t.visited(x) implies t.idx(x) >= t0.next by {
            assert(tp.visited(x));
        }
        assert forall|q: int| 0 <= q < t0.comps().len() implies #[trigger] t.comps()[q] == t0.comps()[q] by {
            assert(tp.comps()[q] == t0.comps()[q]);
        }
        assert(t.stack@.take(t0.stack@.len() as int) =~= t0.stack@);
        assert(c.contains(v)) by {
            assert(popped[0] == v);
            assert(popped.contains(v));
        }
        let vi = choose|i: int| 0 <= i < c.len() && c[i] == v;
        assert(comp_has(t.comps(), tp.comps().len() as int, v));
        assert(t.stack@.skip(t0.stack@.len() as int) =~= Seq::<usize>::empty());
    }
}

fn visit(edges: &Vec<Vec<usize>>, t: &mut Tarjan, v: usize)
    requires
        old(t).wf(edges@),
        v < edges@.len(),
        !old(t).visited(v as int),
    ensures
        final(t).wf(edges@),
        final(t).visited(v as int),
        final(t).idx(v as int) == old(t).next,
        grows(*old(t), *final(t), edges@.len()),
        final(t).stack@.len() == old(t).stack@.len() ==> final(t).in_result(v),
        final(t).stack@.len() > old(t).stack@.len() ==> final(t).stack@[old(t).stack@.len() as int] == v
            && final(t).low@[v as int] < final(t).idx(v as int),
        segment_ok(
            edges@,
            *final(t),
            final(t).stack@.skip(old(t).stack@.len() as int),
            final(t).low@[v as int] as int,
            old(t).next as int,
        ),
        forall|x: int| 0 <= x < edges@.len() && !old(t).visited(x) && #[trigger] final(t).visited(x) ==> bounded(*old(t), *final(t), final(t).low@[x] as int),
    decreases edges@.len() - old(t).next,
{
    let ghost t0 = *t;
    let ghost n = edges@.len();
    let count = edges.len();
    proof {
        lemma_set_len_bound(t.visited_set(n), n as int);
        assert(!t.visited_set(n).contains(v as int));
        assert(t.next < n);
    }
    let index = t.next;
    t.next = t.next + 1;
    t.indices.set(v, Some(index));
    t.low.set(v, index);
    t.stack.push(v);
    t.active.set(v, true);
    proof {
        assert(t.stack@ == t0.stack@.push(v));
        assert(t.visited_set(n) =~= t0.visited_set(n).insert(v as int));
        assert(t.comps() == t0.comps());
        assert forall|x: int| 0 <= x < n implies (#[trigger] t.active@[x] <==> t.stack@.contains(x as usize)) by {
            let xu = x as usize;
            if x != v {
                assert(t.active@[x] == t0.active@[x]);
                if t.stack@.contains(xu) {
                    let k = choose|k: int| 0 <= k < t.stack@.len() && t.stack@[k] == xu;
                    if k < t0.stack@.len() {
                        assert(t0.stack@[k] == xu);
                        assert(t0.stack@.contains(xu));
                    } else {
                        assert(t.stack@[k] == v);
                    }
                }
                if t0.stack@.contains(xu) {
                    let k = choose|k: int| 0 <= k < t0.stack@.len() && t0.stack@[k] == xu;
                    assert(t.stack@[k] == xu);
                }
            } else {
                assert(t.stack@[t0.stack@.len() as int] == v);
            }
        }
        assert forall|k1: int, k2: int| 0 <= k1 < k2 < t.stack@.len() implies #[trigger] t.stack@[k1] != #[trigger] t.stack@[k2] by {
            if k2 == t0.stack@.len() {
                assert(t0.stack@[k1] == t.stack@[k1]);
                assert(t0.stack@.contains(t.stack@[k1]));
                assert(t0.active@[t.stack@[k1] as int]);
                assert(t0.visited(t.stack@[k1] as int));
            }
        }
        assert(t.stack@.skip(t.stack@.len() as int) =~= Seq::<usize>::empty());
        assert(t.stack@.take(t0.stack@.len() as int) =~= t0.stack@);
        assert(t.stack@.take(t.stack@.len() as int) =~= t.stack@);
        assert forall|x: int| 0 <= x < n && x != v implies t.indices@[x] == t0.indices@[x] && t.low@[x] == t0.low@[x] && t.active@[x] == t0.active@[x] by {}
        assert(t.idx(v as int) == index);
        assert forall|x: int| 0 <= x < n && #[trigger] t0.visited(x) implies t.visited(x) && t.idx(x) == t0.idx(x)
            && t.low@[x] == t0.low@[x] by {
            assert(x != v);
        }
        assert forall|x: int| 0 <= x < n && #[trigger] t.visited(x) implies t.idx(x) < t.next && t.low@[x] <= t.idx(x) by {
            if x != v {
                assert(t0.visited(x));
            }
        }
        assert forall|x: int, u: int|
            0 <= x < n && 0 <= u < n && x != u && #[trigger] t.visited(x) && #[trigger] t.visited(u) implies t.idx(x) != t.idx(u) by {
            if x != v && u != v {
                assert(t0.visited(x) && t0.visited(u));
            } else if x == v {
                assert(t0.visited(u));
            } else {
                assert(t0.visited(x));
            }
        }
        assert forall|kk: int| 0 <= kk < t.stack@.len() implies (#[trigger] t.stack@[kk]) < n && t.visited(t.stack@[kk] as int) by {
            if kk < t0.stack@.len() {
                assert(t.stack@[kk] == t0.stack@[kk]);
                assert(t0.visited(t0.stack@[kk] as int));
                assert(t0.stack@[kk] != v);
            }
        }
        assert forall|q: int, i: int|
            0 <= q < t.comps().len() && 0 <= i < t.comps()[q].len() implies (#[trigger] t.comps()[q][i]) < n
                && t.visited(t.comps()[q][i] as int) && !t.active@[t.comps()[q][i] as int] by {
            assert(t0.visited(t0.comps()[q][i] as int));
            assert(t0.comps()[q][i] != v);
        }
        assert forall|x: int| 0 <= x < n && #[trigger] t.visited(x) implies t.active@[x] || t.in_result(x as usize) by {
            if x != v {
                assert(t0.visited(x));
            }
        }
    }
    let ghost base: int = t.stack@.len() as int;
    let ghost prefix = t.stack@;
    let mut k: usize = 0;
    while k < edges[v].len()
        invariant
            t.wf(edges@),
            n == edges@.len(),
            v < n,
            0 <= k <= edges@[v as int]@.len(),
            t.visited(v as int),
            t.idx(v as int) == index,
            index == t0.next,
            t.next > index,
            t0.wf(edges@),
            !t0.visited(v as int),
            old(t).next == index,
            base == t0.stack@.len() + 1,
            prefix == t0.stack@.push(v),
            grows(t0, *t, n),
            t.stack@.len() >= base,
            t.stack@.take(base) == prefix,
            forall|j: int|
                #![trigger edges@[v as int]@[j]]
                0 <= j < k ==> t.in_result(edges@[v as int]@[j]) || (t.active@[edges@[v as int]@[j] as int]
                    && t.low@[v as int] <= t.idx(edges@[v as int]@[j] as int)),
            segment_ok(edges@, *t, t.stack@.skip(base), t.low@[v as int] as int, index + 1),
            forall|x: int| 0 <= x < n && !t0.visited(x) && #[trigger] t.visited(x) ==> bounded(t0, *t, t.low@[x] as int),
        decreases edges@[v as int]@.len() - k,
    {
        let ghost tb = *t;
        let w = edges[v][k];
        proof {
            assert(edges@[v as int]@[k as int] == w);
            assert(w < n);
        }
        if t.indices[w].is_none() {
            assert(edges@.len() - t.next < edges@.len() - t0.next);
            visit(edges, t, w);
            let ghost ta = *t;
            let lw = t.low[w];
            if lw < t.low[v] {
                t.low.set(v, lw);
            }
            proof {
                lemma_grows_trans(t0, tb, ta, n);
                lemma_lower_low(edges@, t0, ta, *t, v as int);
                assert(t.visited_set(n) == ta.visited_set(n));
                assert(t.comps() == ta.comps());
                assert(grows(t0, *t, n)) by {
                    assert forall|x: int| 0 <= x < n && #[trigger] t0.visited(x) implies t.visited(x) && t.idx(x) == t0.idx(x)
                        && t.low@[x] == t0.low@[x] by {
                        assert(tb.visited(x));
                        assert(ta.visited(x));
                        assert(x != v);
                        assert(t.indices@[x] == ta.indices@[x]);
                        assert(t.low@[x] == ta.low@[x]);
                    }
                    assert forall|x: int| 0 <= x < n && !t0.visited(x) && #[trigger] t.visited(x) implies t.idx(x) >= t0.next by {
                        if tb.visited(x) {
                        } else {
                            assert(ta.visited(x));
                        }
                    }
                    assert forall|q: int| 0 <= q < t0.comps().len() implies #[trigger] t.comps()[q] == t0.comps()[q] by {
                        assert(tb.comps()[q] == t0.comps()[q]);
                        assert(ta.comps()[q] == tb.comps()[q]);
                    }
                    assert(t.stack@.take(t0.stack@.len() as int) =~= t0.stack@) by {
                        assert(ta.stack@.take(tb.stack@.len() as int) == tb.stack@);
                        assert forall|i: int| 0 <= i < t0.stack@.len() implies t.stack@[i] == t0.stack@[i] by {
                            assert(tb.stack@.take(t0.stack@.len() as int) == t0.stack@);
                            assert(tb.stack@[i] == t0.stack@[i]);
                            assert(ta.stack@[i] == tb.stack@[i]);
                        }
                    }
                }
                assert(t.stack@.take(base) =~= prefix) by {
                    assert forall|i: int| 0 <= i < base implies t.stack@[i] == prefix[i] by {
                        assert(tb.stack@.take(base)[i] == prefix[i]);
                        assert(ta.stack@.take(tb.stack@.len() as int)[i] == tb.stack@[i]);
                    }
                }
                // the edges seen before stay settled, and so does the new one
                assert forall|j: int|
                    #![trigger edges@[v as int]@[j]]
                    0 <= j < k + 1 implies t.in_result(edges@[v as int]@[j]) || (t.active@[edges@[v as int]@[j] as int]
                        && t.low@[v as int] <= t.idx(edges@[v as int]@[j] as int)) by {
                    let w2 = edges@[v as int]@[j];
                    if j < k {
                        if tb.in_result(w2) {
                            lemma_placed_grows(tb, ta, n, w2);
                        } else {
                            let kk = choose|kk: int| 0 <= kk < tb.stack@.len() && tb.stack@[kk] == w2;
                            assert(ta.stack@.take(tb.stack@.len() as int)[kk] == w2);
                            assert(ta.stack@[kk] == w2);
                            assert(ta.stack@.contains(w2));
                            assert(tb.visited(w2 as int));
                        }
                    } else {
                        if ta.stack@.len() == tb.stack@.len() {
                        } else {
                            assert(ta.stack@[tb.stack@.len() as int] == w);
                            assert(ta.stack@.contains(w));
                        }
                    }
                }
                let seg_b = tb.stack@.skip(base);
                let seg_t = t.stack@.skip(base);
                let seg_w = ta.stack@.skip(tb.stack@.len() as int);
                assert forall|i: int| #![trigger seg_t[i]] 0 <= i < seg_t.len() implies t.low@[seg_t[i] as int] >= t.low@[v as int] && t.idx(seg_t[i] as int) >= index + 1
                    && t.settled(edges@, seg_t[i] as int) by {
                    let x = seg_t[i];
                    if i < seg_b.len() {
                        assert(ta.stack@.take(tb.stack@.len() as int)[base + i] == tb.stack@[base + i]);
                        assert(seg_b[i] == x);
                        assert(tb.visited(x as int));
                        lemma_settled_grows(edges@, tb, ta, x as int);
                        lemma_settled_low_update(edges@, ta, *t, v as int, x as int);
                    } else {
                        assert(seg_w[i - seg_b.len()] == x);
                        assert(ta.low@[x as int] >= ta.low@[w as int]);
                        lemma_settled_low_update(edges@, ta, *t, v as int, x as int);
                    }
                }
                assert forall|kk: int| t0.stack@.len() <= kk < tb.stack@.len() implies tb.idx(#[trigger] tb.stack@[kk] as int) >= t0.next by {
                    if kk >= base {
                        assert(seg_b[kk - base] == tb.stack@[kk]);
                    } else {
                        assert(tb.stack@.take(base)[kk] == prefix[kk]);
                    }
                }
                assert forall|x: int| 0 <= x < n && !t0.visited(x) && #[trigger] t.visited(x) implies bounded(t0, *t, t.low@[x] as int) by {
                    if tb.visited(x) {
                        assert(bounded(t0, tb, tb.low@[x] as int));
                        if x == v && t.low@[x] != tb.low@[x] {
                            assert(t.low@[x] == ta.low@[w as int]);
                            assert(!tb.visited(w as int));
                            lemma_bounded_transfer(edges@, t0, tb, ta, ta.low@[w as int] as int);
                        } else {
                            if tb.low@[x] < t0.next {
                                let kk = choose|kk: int| 0 <= kk < t0.stack@.len() && tb.low@[x] >= tb.idx(#[trigger] t0.stack@[kk] as int);
                                assert(t0.visited(t0.stack@[kk] as int));
                            }
                        }
                    } else {
                        assert(ta.visited(x));
                        assert(ta.low@[x] == t.low@[x]);
                        lemma_bounded_transfer(edges@, t0, tb, ta, ta.low@[x] as int);
                        if ta.low@[x] < t0.next {
                            let kk = choose|kk: int| 0 <= kk < t0.stack@.len() && ta.low@[x] >= ta.idx(#[trigger] t0.stack@[kk] as int);
                            assert(t0.visited(t0.stack@[kk] as int));
                        }
                    }
                }
            }
        } else if t.active[w] {
            let iw = t.indices[w].unwrap();
            if iw < t.low[v] {
                t.low.set(v, iw);
            }
            proof {
                lemma_lower_low(edges@, t0, tb, *t, v as int);
                assert forall|x: int| 0 <= x < n && !t0.visited(x) && #[trigger] t.visited(x) implies bounded(t0, *t, t.low@[x] as int) by {
                    assert(tb.visited(x));
                    if x == v && t.low@[x] != tb.low@[x] {
                        assert(t.low@[x] == tb.idx(w as int));
                        assert(tb.stack@.contains(w));
                        let kk = choose|kk: int| 0 <= kk < tb.stack@.len() && tb.stack@[kk] == w;
                        if kk < t0.stack@.len() {
                            assert(tb.stack@.take(t0.stack@.len() as int)[kk] == t0.stack@[kk]);
                            assert(t0.visited(t0.stack@[kk] as int));
                        } else if kk >= base {
                            assert(tb.stack@.skip(base)[kk - base] == w);
                        } else {
                            assert(tb.stack@.take(base)[kk] == prefix[kk]);
                        }
                    } else {
                        if tb.low@[x] < t0.next {
                            let kk = choose|kk: int| 0 <= kk < t0.stack@.len() && tb.low@[x] >= tb.idx(#[trigger] t0.stack@[kk] as int);
                            assert(t0.visited(t0.stack@[kk] as int));
                        }
                    }
                }
                assert(t.visited_set(n) == tb.visited_set(n));
                assert(t.comps() == tb.comps());
                let seg_t = t.stack@.skip(base);
                assert forall|i: int| #![trigger seg_t[i]] 0 <= i < seg_t.len() implies t.low@[seg_t[i] as int] >= t.low@[v as int] && t.idx(seg_t[i] as int) >= index + 1
                    && t.settled(edges@, seg_t[i] as int) by {
                    lemma_settled_low_update(edges@, tb, *t, v as int, seg_t[i] as int);
                }
            }
        } else {
            proof {
                assert(t.visited(w as int));
                assert(t.in_result(w));
            }
        }
        k += 1;
    }
    proof {
        assert(t.settled(edges@, v as int));
    }
    if t.low[v] == index {
        let ghost tc = *t;
        close_component(edges, t, v, index, Ghost(t0), Ghost(base), Ghost(prefix));
        proof {
            assert forall|x: int| 0 <= x < n && !t0.visited(x) && #[trigger] t.visited(x) implies bounded(t0, *t, t.low@[x] as int) by {
                assert(tc.visited(x));
                if tc.low@[x] < t0.next {
                    let kk = choose|kk: int| 0 <= kk < t0.stack@.len() && tc.low@[x] >= tc.idx(#[trigger] t0.stack@[kk] as int);
                    assert(t.idx(t0.stack@[kk] as int) == tc.idx(t0.stack@[kk] as int));
                }
            }
            assert(t.stack@.skip(t0.stack@.len() as int) =~= Seq::<usize>::empty());
        }
    } else {
        proof {
            let sk = t.stack@.skip(t0.stack@.len() as int);
            let seg = t.stack@.skip(base);
            assert(t.stack@[t0.stack@.len() as int] == v) by {
                assert(t.stack@.take(base)[base - 1] == prefix[base - 1]);
            }
            assert forall|i: int| #![trigger sk[i]] 0 <= i < sk.len() implies t.low@[sk[i] as int] >= t.low@[v as int] && t.idx(sk[i] as int) >= t0.next
                && t.settled(edges@, sk[i] as int) by {
                if i == 0 {
                    assert(sk[0] == v);
                } else {
                    assert(sk[i] == seg[i - 1]);
                }
            }
        }
    }
}


/// Strongly connected components of the graph `edges` (Tarjan's algorithm).
/// Each component is sorted; a component comes after every component it has
/// an edge into, so emitting them in reverse order puts dependencies first.
pub fn components(edges: &Vec<Vec<usize>>) -> (r: Vec<Vec<usize>>)
    requires
        valid_edges(edges@),
    ensures
        partition_of(edges@.len(), comp_views(r@)),
        dependency_ordered(edges@, comp_views(r@)),
{
    let n = edges.len();
    let mut indices: Vec<Option<usize>> = Vec::new();
    let mut low: Vec<usize> = Vec::new();
    let mut active: Vec<bool> = Vec::new();
    let mut i: usize = 0;
    while i < n
        invariant
            i <= n,
            n == edges@.len(),
            indices@.len() == i,
            low@.len() == i,
            active@.len() == i,
            forall|k: int| 0 <= k < i ==> indices@[k] == None::<usize> && active@[k] == false,
        decreases n - i,
    {
        let ghost oi = indices@;
        let ghost oa = active@;
        indices.push(None);
        low.push(0);
        active.push(false);
        assert(indices@ == oi.push(None));
        assert(active@ == oa.push(false));
        assert forall|k: int| 0 <= k < i + 1 implies indices@[k] == None::<usize> && active@[k] == false by {
            if k < i {
                assert(indices@[k] == oi[k]);
                assert(active@[k] == oa[k]);
            }
        }
        i += 1;
    }
    let mut t = Tarjan { next: 0, indices, low, stack: Vec::new(), active, result: Vec::new() };
    proof {
        assert forall|x: int| 0 <= x < n implies !t.visited(x) by {
            assert(t.indices@[x] == None::<usize>);
        }
        assert(t.visited_set(n as nat) =~= Set::<int>::empty());
        assert(t.comps() =~= Seq::<Seq<usize>>::empty());
    }
    let mut v: usize = 0;
    while v < n
        invariant
            v <= n,
            n == edges@.len(),
            t.wf(edges@),
            t.stack@.len() == 0,
            forall|x: int| 0 <= x < v ==> #[trigger] t.visited(x),
        decreases n - v,
    {
        if t.indices[v].is_none() {
            let ghost t0 = t;
            visit(edges, &mut t, v);
            proof {
                if t.stack@.len() > 0 {
                    assert(t.visited(v as int));
                    assert(bounded(t0, t, t.low@[v as int] as int));
                    assert(t.idx(v as int) >= t0.next);
                }
                assert forall|x: int| 0 <= x < v + 1 implies #[trigger] t.visited(x) by {
                    if x < v {
                        assert(t0.visited(x));
                    }
                }
            }
        }
        v += 1;
    }
    let ghost cs = t.comps();
    proof {
        assert forall|x: usize| x < n implies #[trigger] placed(cs, x) by {
            assert(t.visited(x as int));
            if t.active@[x as int] {
                assert(t.stack@.contains(x));
            }
        }
        assert forall|q: int, ii: int| 0 <= q < cs.len() && 0 <= ii < cs[q].len() implies cs[q][ii] < n by {
            assert(t.comps()[q][ii] < n);
        }
        assert forall|q: int| 0 <= q < cs.len() implies cs[q].len() > 0 by {
            assert(t.comps()[q].len() > 0);
        }
        assert forall|q: int, ii: int, k: int| 0 <= q < cs.len() && 0 <= ii < k < cs[q].len() implies cs[q][ii] < cs[q][k] by {
            assert(t.comps()[q][ii] < t.comps()[q][k]);
        }
    }
    t.result
}


/// Failures of dependency emission.
pub enum Error {
    /// A needed specialization has no value yet.
    ComptimeAssembly(String),
    /// Normalizing a recursive group took more than the step budget.
    RecursionNormalizationLimit,
    /// A recursive group defines a value that is not a function.
    RecursiveValue,
}

/// Some definition of `defs` binds `u`.
pub open spec fn def_name(defs: Seq<(Binder, Core)>, u: u32) -> bool {
    exists|d: int| 0 <= d < defs.len() && (#[trigger] defs[d]).0.name.unique == u
}

/// `u` is free in the value of some definition of `defs`.
pub open spec fn def_free(defs: Seq<(Binder, Core)>, u: u32) -> bool {
    exists|d: int| 0 <= d < defs.len() && free_in((#[trigger] defs[d]).1@, u)
}

/// Every name free in `r` is free in `root` or in a definition, and is bound
/// by none of the definitions.
pub open spec fn scoped(r: Tm, root: Tm, defs: Seq<(Binder, Core)>) -> bool {
    forall|u: u32|
        free_in(r, u) ==> !def_name(defs, u) && (free_in(root, u) || def_free(defs, u))
}

/// Some definition name of `defs` is free in `t`.
pub open spec fn mentions(t: Tm, defs: Seq<(Binder, Core)>) -> bool {
    exists|d: int| 0 <= d < defs.len() && free_in(t, (#[trigger] defs[d]).0.name.unique)
}

fn mentions_any(value: &Core, defs: &Vec<(Binder, Core)>) -> (r: bool)
    ensures
        r == mentions(value@, defs@),
{
    let used = names(value);
    let mut d: usize = 0;
    while d < defs.len()
        invariant
            d <= defs@.len(),
            used@ == free_set(value@),
            forall|k: int| 0 <= k < d ==> !free_in(value@, (#[trigger] defs@[k]).0.name.unique),
        decreases defs@.len() - d,
    {
        if used.contains(&defs[d].0.name.unique) {
            return true;
        }
        d += 1;
    }
    false
}

/// Whether `t` refers to the group `rest` with `b0` put back.
fn mentions_group(t: &Core, rest: &Vec<(Binder, Core)>, b0: &Binder) -> (r: bool)
    ensures
        r == (mentions(t@, rest@) || free_in(t@, b0.name.unique)),
{
    if mentions_any(t, rest) {
        return true;
    }
    let used = names(t);
    used.contains(&b0.name.unique)
}

/// Copies of the definitions: same binders, terms with equal views.
fn duplicate_defs(defs: &Vec<(Binder, Core)>) -> (r: Vec<(Binder, Core)>)
    ensures
        r@.len() == defs@.len(),
        forall|d: int| 0 <= d < defs@.len() ==> (#[trigger] r@[d]).0 == defs@[d].0 && r@[d].1@ == defs@[d].1@,
{
    let mut r: Vec<(Binder, Core)> = Vec::new();
    let mut i: usize = 0;
    while i < defs.len()
        invariant
            i <= defs@.len(),
            r@.len() == i,
            forall|d: int| 0 <= d < i ==> (#[trigger] r@[d]).0 == defs@[d].0 && r@[d].1@ == defs@[d].1@,
        decreases defs@.len() - i,
    {
        r.push((defs[i].0.duplicate(), defs[i].1.duplicate()));
        i += 1;
    }
    r
}

proof fn lemma_defs_same(a: Seq<(Binder, Core)>, b: Seq<(Binder, Core)>)
    requires
        a.len() == b.len(),
        forall|d: int| 0 <= d < a.len() ==> (#[trigger] a[d]).0 == b[d].0 && a[d].1@ == b[d].1@,
    ensures
        forall|u: u32| def_name(a, u) == def_name(b, u),
        forall|u: u32| def_free(a, u) == def_free(b, u),
        forall|t: Tm| mentions(t, a) == mentions(t, b),
{
    assert forall|u: u32| def_name(a, u) == def_name(b, u) by {
        if def_name(a, u) {
            let d = choose|d: int| 0 <= d < a.len() && (#[trigger] a[d]).0.name.unique == u;
            assert(b[d].0.name.unique == u);
        }
        if def_name(b, u) {
            let d = choose|d: int| 0 <= d < b.len() && (#[trigger] b[d]).0.name.unique == u;
            assert(a[d].0.name.unique == u);
        }
    }
    assert forall|u: u32| def_free(a, u) == def_free(b, u) by {
        if def_free(a, u) {
            let d = choose|d: int| 0 <= d < a.len() && free_in((#[trigger] a[d]).1@, u);
            assert(free_in(b[d].1@, u));
        }
        if def_free(b, u) {
            let d = choose|d: int| 0 <= d < b.len() && free_in((#[trigger] b[d]).1@, u);
            assert(free_in(a[d].1@, u));
        }
    }
    assert forall|t: Tm| mentions(t, a) == mentions(t, b) by {
        if mentions(t, a) {
            let d = choose|d: int| 0 <= d < a.len() && free_in(t, (#[trigger] a[d]).0.name.unique);
            assert(free_in(t, b[d].0.name.unique));
        }
        if mentions(t, b) {
            let d = choose|d: int| 0 <= d < b.len() && free_in(t, (#[trigger] b[d]).0.name.unique);
            assert(free_in(t, a[d].0.name.unique));
        }
    }
}

/// Definitions `rest` with `(b, v)` put back at `index`.
proof fn lemma_defs_insert(rest: Seq<(Binder, Core)>, index: int, b: Binder, v: Core)
    requires
        0 <= index <= rest.len(),
    ensures
        forall|u: u32| def_name(rest.insert(index, (b, v)), u) == (def_name(rest, u) || b.name.unique == u),
        forall|u: u32| def_free(rest.insert(index, (b, v)), u) == (def_free(rest, u) || free_in(v@, u)),
        forall|t: Tm| mentions(t, rest.insert(index, (b, v))) == (mentions(t, rest) || free_in(t, b.name.unique)),
{
    let s = rest.insert(index, (b, v));
    assert(s[index] == (b, v));
    assert forall|d: int| 0 <= d < rest.len() implies #[trigger] rest[d] == s[if d < index { d } else { d + 1 }] by {}
    assert forall|u: u32| def_name(s, u) == (def_name(rest, u) || b.name.unique == u) by {
        if def_name(s, u) {
            let d = choose|d: int| 0 <= d < s.len() && (#[trigger] s[d]).0.name.unique == u;
            if d < index {
                assert(rest[d] == s[d]);
            } else if d > index {
                assert(rest[d - 1] == s[d]);
            }
        }
        if def_name(rest, u) {
            let d = choose|d: int| 0 <= d < rest.len() && (#[trigger] rest[d]).0.name.unique == u;
            assert(rest[d] == s[if d < index { d } else { d + 1 }]);
        }
    }
    assert forall|u: u32| def_free(s, u) == (def_free(rest, u) || free_in(v@, u)) by {
        if def_free(s, u) {
            let d = choose|d: int| 0 <= d < s.len() && free_in((#[trigger] s[d]).1@, u);
            if d < index {
                assert(rest[d] == s[d]);
            } else if d > index {
                assert(rest[d - 1] == s[d]);
            }
        }
        if def_free(rest, u) {
            let d = choose|d: int| 0 <= d < rest.len() && free_in((#[trigger] rest[d]).1@, u);
            assert(rest[d] == s[if d < index { d } else { d + 1 }]);
        }
    }
    assert forall|t: Tm| mentions(t, s) == (mentions(t, rest) || free_in(t, b.name.unique)) by {
        if mentions(t, s) {
            let d = choose|d: int| 0 <= d < s.len() && free_in(t, (#[trigger] s[d]).0.name.unique);
            if d < index {
                assert(rest[d] == s[d]);
            } else if d > index {
                assert(rest[d - 1] == s[d]);
            }
        }
        if mentions(t, rest) {
            let d = choose|d: int| 0 <= d < rest.len() && free_in(t, (#[trigger] rest[d]).0.name.unique);
            assert(rest[d] == s[if d < index { d } else { d + 1 }]);
        }
    }
}


proof fn lemma_defs_concat(a: Seq<(Binder, Core)>, b: Seq<(Binder, Core)>)
    ensures
        forall|u: u32| def_name(a + b, u) == (def_name(a, u) || def_name(b, u)),
        forall|u: u32| def_free(a + b, u) == (def_free(a, u) || def_free(b, u)),
{
    let s = a + b;
    assert forall|u: u32| def_name(s, u) == (def_name(a, u) || def_name(b, u)) by {
        if def_name(s, u) {
            let d = choose|d: int| 0 <= d < s.len() && (#[trigger] s[d]).0.name.unique == u;
            if d < a.len() {
                assert(a[d] == s[d]);
            } else {
                assert(b[d - a.len()] == s[d]);
            }
        }
        if def_name(a, u) {
            let d = choose|d: int| 0 <= d < a.len() && (#[trigger] a[d]).0.name.unique == u;
            assert(s[d] == a[d]);
        }
        if def_name(b, u) {
            let d = choose|d: int| 0 <= d < b.len() && (#[trigger] b[d]).0.name.unique == u;
            assert(s[d + a.len()] == b[d]);
        }
    }
    assert forall|u: u32| def_free(s, u) == (def_free(a, u) || def_free(b, u)) by {
        if def_free(s, u) {
            let d = choose|d: int| 0 <= d < s.len() && free_in((#[trigger] s[d]).1@, u);
            if d < a.len() {
                assert(a[d] == s[d]);
            } else {
                assert(b[d - a.len()] == s[d]);
            }
        }
        if def_free(a, u) {
            let d = choose|d: int| 0 <= d < a.len() && free_in((#[trigger] a[d]).1@, u);
            assert(s[d] == a[d]);
        }
        if def_free(b, u) {
            let d = choose|d: int| 0 <= d < b.len() && free_in((#[trigger] b[d]).1@, u);
            assert(s[d + a.len()] == b[d]);
        }
    }
}

/// Specializations recorded by the engine: a binder and, once compiled, its value.
pub struct InstanceBody {
    pub binder: Binder,
    pub value: Option<Core>,
}

/// The message of the error for a needed specialization that is still
/// being compiled: found while collecting what the root needs, or while
/// listing the selected definitions.
pub open spec fn pending_message(reachable_only: bool) -> Seq<char> {
    if reachable_only {
        "recursive dependency is still being compiled"@
    } else {
        "dependency is still being compiled"@
    }
}

/// Every group has compiled all of its specializations.
pub open spec fn drained(groups: Seq<Group>) -> bool {
    forall|g: int| 0 <= g < groups.len() ==> (#[trigger] groups[g]).cursor >= groups[g].specs@.len()
}

/// A lexical group of specializations, in request order.
pub struct Group {
    pub specs: Vec<usize>,
    pub cursor: usize,
}

/// The emission state of specialization: every requested instance and the
/// groups that own them.
pub struct Engine {
    pub groups: Vec<Group>,
    pub specs: Vec<InstanceBody>,
}

fn is_lam(c: &Core) -> (r: bool)
    ensures
        r == (*c is Lam),
{
    match c {
        Core::Lam { .. } => true,
        _ => false,
    }
}

/// The LetRec that binds `defs` (all functions) around `root`.
fn let_rec_of(defs: Vec<(Binder, Core)>, root: Core) -> (r: Core)
    requires
        forall|d: int| 0 <= d < defs@.len() ==> (#[trigger] defs@[d]).1 is Lam,
    ensures
        scoped(r@, root@, defs@),
        r@ == Tm::LetRec(group_of(def_views(defs@)), Box::new(root@)),
{
    let ghost ds = defs@;
    let mut defs = defs;
    let mut binders: Vec<RecBinder> = Vec::new();
    let mut i: usize = 0;
    let n = defs.len();
    while i < n
        invariant
            i <= n,
            n == ds.len(),
            defs@ == ds.skip(i as int),
            binders@.len() == i,
            forall|d: int| 0 <= d < ds.len() ==> (#[trigger] ds[d]).1 is Lam,
            forall|d: int|
                0 <= d < i ==> (#[trigger] binders@[d]).binder == ds[d].0 && ds[d].1@ == Tm::Lam(
                    binders@[d].params@,
                    Box::new(binders@[d].body@),
                ) && binders@[d].static_params@ == spec_static_params(
                    ds[d].0.name.unique,
                    binder_uniques(binders@[d].params@),
                    binders@[d].body@,
                ),
        decreases n - i,
    {
        let (binder, value) = defs.remove(0);
        proof {
            assert(ds.skip(i as int)[0] == ds[i as int]);
            assert(ds.skip(i as int).remove(0) =~= ds.skip(i + 1));
        }
        match value {
            Core::Lam { params, body } => {
                let sp = static_params(&binder.name, &params, &body);
                binders.push(RecBinder { binder, params, static_params: sp, body: *body });
            },
            _ => {
                proof {
                    assert(false);
                }
            },
        }
        i += 1;
    }
    let r = Core::LetRec { binders, body: Box::new(root) };
    proof {
        lemma_views(r);
        let gv = group_views(binders@);
        assert(gv =~= group_of(def_views(ds))) by {
            assert forall|d: int| 0 <= d < gv.len() implies #[trigger] gv[d] == group_of(def_views(ds))[d] by {
                assert(gv[d] == binders@[d]@);
                assert(def_views(ds)[d] == (ds[d].0, ds[d].1@));
            }
        }
        assert forall|u: u32| free_in(r@, u) implies !def_name(ds, u) && (free_in(root@, u) || def_free(ds, u)) by {
            assert(!group_uniques(gv).contains(u));
            if def_name(ds, u) {
                let d = choose|d: int| 0 <= d < ds.len() && (#[trigger] ds[d]).0.name.unique == u;
                assert(group_uniques(gv)[d] == u);
            }
            if !free_in(root@, u) {
                lemma_free_in_group(gv, u);
                let k = choose|k: int| 0 <= k < gv.len() && !binder_uniques(gv[k].params).contains(u) && free_in(#[trigger] gv[k].body, u);
                assert(free_in(ds[k].1@, u));
            }
        }
    }
    r
}

/// `lemma_defs_insert` at one name.
proof fn lemma_defs_insert_at(rest: Seq<(Binder, Core)>, index: int, b: Binder, v: Core, u: u32)
    requires
        0 <= index <= rest.len(),
    ensures
        def_name(rest.insert(index, (b, v)), u) == (def_name(rest, u) || b.name.unique == u),
        def_free(rest.insert(index, (b, v)), u) == (def_free(rest, u) || free_in(v@, u)),
{
    lemma_defs_insert(rest, index, b, v);
}

/// `lemma_defs_concat` at one name.
proof fn lemma_defs_concat_at(a: Seq<(Binder, Core)>, b: Seq<(Binder, Core)>, u: u32)
    ensures
        def_name(a + b, u) == (def_name(a, u) || def_name(b, u)),
        def_free(a + b, u) == (def_free(a, u) || def_free(b, u)),
{
    lemma_defs_concat(a, b);
}

proof fn lemma_defs_single(b: Binder, v: Core)
    ensures
        forall|u: u32| def_name(seq![(b, v)], u) == (b.name.unique == u),
        forall|u: u32| def_free(seq![(b, v)], u) == free_in(v@, u),
{
    let s = seq![(b, v)];
    assert(s[0] == (b, v));
}

/// A term that mentions no definition name has no free name that a
/// definition binds.
proof fn lemma_no_mention(t: Tm, defs: Seq<(Binder, Core)>)
    requires
        !mentions(t, defs),
    ensures
        forall|u: u32| free_in(t, u) ==> !def_name(defs, u),
{
    assert forall|u: u32| free_in(t, u) implies !def_name(defs, u) by {
        if def_name(defs, u) {
            let d = choose|d: int| 0 <= d < defs.len() && (#[trigger] defs[d]).0.name.unique == u;
            assert(free_in(t, defs[d].0.name.unique));
        }
    }
}

/// A `let` whose value is a function joins the group.
proof fn lemma_scoped_let_lam(
    r: Tm,
    root: Tm,
    rest: Seq<(Binder, Core)>,
    index: int,
    b0: Binder,
    value: Core,
    binder: Binder,
    v: Core,
    body: Core,
)
    requires
        0 <= index <= rest.len(),
        value@ == Tm::Let(binder, Box::new(v@), Box::new(body@)),
        scoped(r, root, rest.insert(index, (b0, body)).push((binder, v))),
    ensures
        scoped(r, root, rest.insert(index, (b0, value))),
{
    let s = rest.insert(index, (b0, body));
    let a = s.push((binder, v));
    let defs = rest.insert(index, (b0, value));
    lemma_defs_insert(rest, index, b0, body);
    lemma_defs_insert(rest, index, b0, value);
    lemma_defs_concat(s, seq![(binder, v)]);
    lemma_defs_single(binder, v);
    assert(a =~= s + seq![(binder, v)]);
    assert forall|u: u32| free_in(r, u) implies !def_name(defs, u) && (free_in(root, u) || def_free(
        defs,
        u,
    )) by {
        lemma_defs_concat_at(s, seq![(binder, v)], u);
        lemma_defs_insert_at(rest, index, b0, body, u);
        lemma_defs_insert_at(rest, index, b0, value, u);
        if !free_in(root, u) && (free_in(v@, u) || free_in(body@, u)) {
            assert(free_in(value@, u));
        }
    }
}

/// A `let` whose value does not refer to the group is hoisted out of it.
proof fn lemma_scoped_let(
    r1: Tm,
    root: Tm,
    rest: Seq<(Binder, Core)>,
    index: int,
    b0: Binder,
    value: Core,
    binder: Binder,
    v: Core,
    body: Core,
)
    requires
        0 <= index <= rest.len(),
        value@ == Tm::Let(binder, Box::new(v@), Box::new(body@)),
        scoped(r1, root, rest.insert(index, (b0, body))),
        !mentions(v@, rest.insert(index, (b0, value))),
    ensures
        scoped(Tm::Let(binder, Box::new(v@), Box::new(r1)), root, rest.insert(index, (b0, value))),
{
    let s = rest.insert(index, (b0, body));
    let defs = rest.insert(index, (b0, value));
    lemma_defs_insert(rest, index, b0, body);
    lemma_defs_insert(rest, index, b0, value);
    lemma_no_mention(v@, defs);
    let t = Tm::Let(binder, Box::new(v@), Box::new(r1));
    assert forall|u: u32| free_in(t, u) implies !def_name(defs, u) && (free_in(root, u) || def_free(
        defs,
        u,
    )) by {
        lemma_defs_insert_at(rest, index, b0, body, u);
        lemma_defs_insert_at(rest, index, b0, value, u);
        if free_in(v@, u) {
            assert(free_in(value@, u));
        } else {
            assert(free_in(r1, u));
            if free_in(body@, u) {
                assert(free_in(value@, u));
            }
        }
    }
}

/// A nested recursive group is merged into the enclosing one.
proof fn lemma_scoped_letrec(
    r: Tm,
    root: Tm,
    rest: Seq<(Binder, Core)>,
    index: int,
    b0: Binder,
    value: Core,
    bs: Seq<RecTm>,
    body: Core,
    lams: Seq<(Binder, Core)>,
)
    requires
        0 <= index <= rest.len(),
        value@ == Tm::LetRec(bs, Box::new(body@)),
        lams.len() == bs.len(),
        forall|k: int|
            0 <= k < bs.len() ==> (#[trigger] lams[k]).0 == bs[k].binder && lams[k].1@ == Tm::Lam(
                bs[k].params,
                Box::new(bs[k].body),
            ),
        scoped(r, root, rest.insert(index, (b0, body)) + lams),
    ensures
        scoped(r, root, rest.insert(index, (b0, value))),
{
    let s = rest.insert(index, (b0, body));
    lemma_defs_insert(rest, index, b0, body);
    lemma_defs_insert(rest, index, b0, value);
    lemma_defs_concat(s, lams);
    assert forall|u: u32| !def_name(lams, u) implies !group_uniques(bs).contains(u) by {
        if group_uniques(bs).contains(u) {
            let j = choose|j: int| 0 <= j < group_uniques(bs).len() && group_uniques(bs)[j] == u;
            assert(lams[j].0.name.unique == u);
        }
    }
    assert forall|u: u32| def_free(lams, u) && !def_name(lams, u) implies free_in(value@, u) by {
        let k = choose|k: int| 0 <= k < lams.len() && free_in((#[trigger] lams[k]).1@, u);
        lemma_free_in_group(bs, u);
        assert(free_in(bs[k].body, u));
    }
    let a = s + lams;
    let defs = rest.insert(index, (b0, value));
    assert forall|u: u32| free_in(r, u) implies !def_name(defs, u) && (free_in(root, u) || def_free(
        defs,
        u,
    )) by {
        lemma_defs_concat_at(s, lams, u);
        lemma_defs_insert_at(rest, index, b0, body, u);
        lemma_defs_insert_at(rest, index, b0, value, u);
        if !free_in(root, u) && free_in(body@, u) {
            assert(!group_uniques(bs).contains(u));
            assert(free_in(value@, u));
        }
    }
}

/// A trace whose message does not refer to the group stays outside it.
proof fn lemma_scoped_trace(
    r1: Tm,
    root: Tm,
    rest: Seq<(Binder, Core)>,
    index: int,
    b0: Binder,
    value: Core,
    message: Core,
    body: Core,
)
    requires
        0 <= index <= rest.len(),
        value@ == Tm::Trace(Box::new(message@), Box::new(body@)),
        scoped(r1, root, rest.insert(index, (b0, body))),
        !mentions(message@, rest.insert(index, (b0, value))),
    ensures
        scoped(Tm::Trace(Box::new(message@), Box::new(r1)), root, rest.insert(index, (b0, value))),
{
    let s = rest.insert(index, (b0, body));
    let defs = rest.insert(index, (b0, value));
    lemma_defs_insert(rest, index, b0, body);
    lemma_defs_insert(rest, index, b0, value);
    lemma_no_mention(message@, defs);
    let t = Tm::Trace(Box::new(message@), Box::new(r1));
    assert forall|u: u32| free_in(t, u) implies !def_name(defs, u) && (free_in(root, u) || def_free(
        defs,
        u,
    )) by {
        lemma_defs_insert_at(rest, index, b0, body, u);
        lemma_defs_insert_at(rest, index, b0, value, u);
        if free_in(message@, u) {
            assert(free_in(value@, u));
        } else {
            assert(free_in(r1, u));
            if free_in(body@, u) {
                assert(free_in(value@, u));
            }
        }
    }
}

/// A value that does not refer to the group is bound outside it.
proof fn lemma_scoped_plain(
    r1: Tm,
    root: Tm,
    rest: Seq<(Binder, Core)>,
    index: int,
    b0: Binder,
    value: Core,
)
    requires
        0 <= index <= rest.len(),
        scoped(r1, root, rest),
        !mentions(value@, rest.insert(index, (b0, value))),
    ensures
        scoped(Tm::Let(b0, Box::new(value@), Box::new(r1)), root, rest.insert(index, (b0, value))),
{
    let defs = rest.insert(index, (b0, value));
    lemma_defs_insert(rest, index, b0, value);
    lemma_no_mention(value@, defs);
    let t = Tm::Let(b0, Box::new(value@), Box::new(r1));
    assert forall|u: u32| free_in(t, u) implies !def_name(defs, u) && (free_in(root, u) || def_free(
        defs,
        u,
    )) by {
        lemma_defs_insert_at(rest, index, b0, value, u);
        if !free_in(value@, u) {
            assert(free_in(r1, u));
        }
    }
}

/// Scoping of one arm of a case, with the arm's own binders set aside.
pub open spec fn scoped_under(r: Tm, bound: Seq<u32>, root: Tm, defs: Seq<(Binder, Core)>) -> bool {
    forall|u: u32|
        free_in(r, u) && !bound.contains(u) ==> !def_name(defs, u) && (free_in(root, u) || def_free(defs, u))
}

/// A case arm rewritten with its body in place of the case.
proof fn lemma_scoped_arm(
    r: Tm,
    bound: Seq<u32>,
    arm: Core,
    root: Tm,
    rest: Seq<(Binder, Core)>,
    dup: Seq<(Binder, Core)>,
    index: int,
    b0: Binder,
    value: Core,
)
    requires
        0 <= index <= rest.len(),
        dup.len() == rest.len(),
        forall|d: int| 0 <= d < rest.len() ==> (#[trigger] dup[d]).0 == rest[d].0 && dup[d].1@ == rest[d].1@,
        scoped(r, root, dup.insert(index, (b0, arm))),
        forall|u: u32| free_in(arm@, u) && !bound.contains(u) ==> free_in(value@, u),
    ensures
        scoped_under(r, bound, root, rest.insert(index, (b0, value))),
{
    lemma_defs_same(dup, rest);
    lemma_defs_insert(dup, index, b0, arm);
    lemma_defs_insert(rest, index, b0, value);
    let a = dup.insert(index, (b0, arm));
    let defs = rest.insert(index, (b0, value));
    assert forall|u: u32| free_in(r, u) && !bound.contains(u) implies !def_name(defs, u) && (free_in(
        root,
        u,
    ) || def_free(defs, u)) by {
        lemma_defs_insert_at(dup, index, b0, arm, u);
        lemma_defs_insert_at(rest, index, b0, value, u);
        assert(def_name(dup, u) == def_name(rest, u));
        assert(def_free(dup, u) == def_free(rest, u));
    }
}

/// A case whose scrutinee does not refer to the group, rebuilt from
/// rewritten arms.
proof fn lemma_scoped_case(
    kind: CaseKind,
    scrutinee: Tm,
    arms: Seq<BranchTm>,
    default: Option<Box<Tm>>,
    root: Tm,
    defs: Seq<(Binder, Core)>,
)
    requires
        !mentions(scrutinee, defs),
        forall|i: int|
            0 <= i < arms.len() ==> scoped_under(
                (#[trigger] arms[i]).body,
                binder_uniques(arms[i].binders),
                root,
                defs,
            ),
        default matches Some(d) ==> scoped(*d, root, defs),
        forall|u: u32| free_in(scrutinee, u) ==> (free_in(root, u) || def_free(defs, u)),
    ensures
        scoped(Tm::Case(kind, Box::new(scrutinee), arms, default), root, defs),
{
    lemma_no_mention(scrutinee, defs);
    assert forall|u: u32| free_in_branches(arms, u) implies !def_name(defs, u) && (free_in(root, u)
        || def_free(defs, u)) by {
        lemma_free_in_branches(arms, u);
        let i = choose|i: int|
            0 <= i < arms.len() && !binder_uniques(arms[i].binders).contains(u) && free_in(
                #[trigger] arms[i].body,
                u,
            );
        assert(scoped_under(arms[i].body, binder_uniques(arms[i].binders), root, defs));
    }
}

/// Definitions with their values as terms.
pub open spec fn def_views(defs: Seq<(Binder, Core)>) -> Seq<(Binder, Tm)> {
    Seq::new(defs.len(), |d: int| (defs[d].0, defs[d].1@))
}

/// The position of the first definition whose value is not a lambda, or the
/// number of definitions when all are lambdas.
pub open spec fn first_value(dv: Seq<(Binder, Tm)>) -> int
    decreases dv.len(),
{
    if dv.len() == 0 {
        0
    } else {
        let p = first_value(dv.drop_last());
        if p < dv.len() - 1 {
            p
        } else if dv.last().1 is Lam {
            dv.len() as int
        } else {
            dv.len() - 1
        }
    }
}

/// `t` names a definition of `rest` or `b0`.
pub open spec fn names_group(t: Tm, rest: Seq<(Binder, Tm)>, b0: Binder) -> bool {
    ||| exists|d: int| 0 <= d < rest.len() && free_in(t, (#[trigger] rest[d]).0.name.unique)
    ||| free_in(t, b0.name.unique)
}

/// The recursive group of definitions whose values are all lambdas.
pub open spec fn group_of(dv: Seq<(Binder, Tm)>) -> Seq<RecTm> {
    Seq::new(
        dv.len(),
        |d: int|
            RecTm {
                binder: dv[d].0,
                params: dv[d].1->Lam_0,
                static_params: spec_static_params(dv[d].0.name.unique, binder_uniques(dv[d].1->Lam_0), *dv[d].1->Lam_1),
                body: *dv[d].1->Lam_1,
            },
    )
}

/// The members of a recursive group as lambda definitions.
pub open spec fn lams_of(rbs: Seq<RecTm>) -> Seq<(Binder, Tm)> {
    Seq::new(rbs.len(), |j: int| (rbs[j].binder, Tm::Lam(rbs[j].params, Box::new(rbs[j].body))))
}

/// `g`, but never more than `f`.
pub open spec fn at_most(g: nat, f: nat) -> nat {
    if g <= f {
        g
    } else {
        f
    }
}

/// `t` under `wrap`, if the result is a term.
pub open spec fn wrapped(r: Result<Tm, Error>, wrap: spec_fn(Tm) -> Tm) -> Result<Tm, Error> {
    match r {
        Ok(t) => Ok(wrap(t)),
        Err(e) => Err(e),
    }
}

/// A result of the library's passes as a term.
pub open spec fn res_view(r: Result<Core, Error>) -> Result<Tm, Error> {
    match r {
        Ok(c) => Ok(c@),
        Err(e) => Err(e),
    }
}

/// Normalizing definitions `dv` around `root` with `fuel` steps: the
/// result, and the fuel left. Each step takes the first definition whose
/// value is not a lambda and moves its evaluation out of the group: a `let`
/// is bound outside (a lambda-valued one joins the group), a nested group
/// joins the group, a trace stays in front, a case is pushed around the
/// group with one copy per branch, an error ends everything, and any other
/// value is bound outside, unless the value names the group. When every
/// value is a lambda, the definitions form one recursive group.
pub open spec fn normalize(dv: Seq<(Binder, Tm)>, root: Tm, fuel: nat) -> (Result<Tm, Error>, nat)
    decreases fuel, 0nat, 0nat,
{
    if fuel == 0 {
        (Err(Error::RecursionNormalizationLimit), 0)
    } else {
        let f = (fuel - 1) as nat;
        let i = first_value(dv);
        if i < 0 || i >= dv.len() {
            (Ok(Tm::LetRec(group_of(dv), Box::new(root))), f)
        } else {
            let b0 = dv[i].0;
            let rest = dv.remove(i);
            match dv[i].1 {
                Tm::Let(x, v, body) => if *v is Lam {
                    normalize(rest.insert(i, (b0, *body)).push((x, *v)), root, f)
                } else if names_group(*v, rest, b0) {
                    (Err(Error::RecursiveValue), f)
                } else {
                    let (r, g) = normalize(rest.insert(i, (b0, *body)), root, f);
                    (wrapped(r, |t: Tm| Tm::Let(x, v, Box::new(t))), g)
                },
                Tm::LetRec(rbs, body) => normalize(rest.insert(i, (b0, *body)) + lams_of(rbs), root, f),
                Tm::Trace(m, body) => if names_group(*m, rest, b0) {
                    (Err(Error::RecursiveValue), f)
                } else {
                    let (r, g) = normalize(rest.insert(i, (b0, *body)), root, f);
                    (wrapped(r, |t: Tm| Tm::Trace(m, Box::new(t))), g)
                },
                Tm::Case(kind, s, bs, d) => if names_group(*s, rest, b0) {
                    (Err(Error::RecursiveValue), f)
                } else {
                    normalize_case(rest, i, b0, kind, *s, bs, d, root, f)
                },
                Tm::Error => (Ok(Tm::Error), f),
                other => if names_group(other, rest, b0) {
                    (Err(Error::RecursiveValue), f)
                } else {
                    let (r, g) = normalize(rest, root, f);
                    (wrapped(r, |t: Tm| Tm::Let(b0, Box::new(other), Box::new(t))), g)
                },
            }
        }
    }
}

/// The case arm of `normalize`: each branch and the default normalized
/// with the definitions, the case's value in place of definition `i`.
pub open spec fn normalize_case(
    rest: Seq<(Binder, Tm)>,
    i: int,
    b0: Binder,
    kind: CaseKind,
    s: Tm,
    bs: Seq<BranchTm>,
    d: Option<Box<Tm>>,
    root: Tm,
    fuel: nat,
) -> (Result<Tm, Error>, nat)
    decreases fuel, 2nat, 0nat,
{
    let (arms, g) = normalize_arms(rest, i, b0, bs, root, fuel, bs.len());
    match arms {
        Err(e) => (Err(e), g),
        Ok(out) => match d {
            None => (Ok(Tm::Case(kind, Box::new(s), out, None)), g),
            Some(x) => {
                let (r, h) = normalize(rest.insert(i, (b0, *x)), root, at_most(g, fuel));
                (wrapped(r, |t: Tm| Tm::Case(kind, Box::new(s), out, Some(Box::new(t)))), h)
            },
        },
    }
}

/// The first `n` branches of a case, each normalized with the definitions,
/// and the fuel left; the first failure stops the rest.
pub open spec fn normalize_arms(
    rest: Seq<(Binder, Tm)>,
    i: int,
    b0: Binder,
    bs: Seq<BranchTm>,
    root: Tm,
    fuel: nat,
    n: nat,
) -> (Result<Seq<BranchTm>, Error>, nat)
    decreases fuel, 1nat, n,
{
    if n == 0 || n > bs.len() {
        (Ok(Seq::empty()), fuel)
    } else {
        let (prev, g) = normalize_arms(rest, i, b0, bs, root, fuel, (n - 1) as nat);
        match prev {
            Err(e) => (Err(e), g),
            Ok(out) => {
                let (r, h) = normalize(rest.insert(i, (b0, bs[n - 1].body)), root, at_most(g, fuel));
                (
                    match r {
                        Ok(t) => Ok(out.push(BranchTm { test: bs[n - 1].test, binders: bs[n - 1].binders, body: t })),
                        Err(e) => Err(e),
                    },
                    h,
                )
            },
        }
    }
}

/// A failure among the first `n` branches stays the result for more.
proof fn lemma_arms_err(
    rest: Seq<(Binder, Tm)>,
    i: int,
    b0: Binder,
    bs: Seq<BranchTm>,
    root: Tm,
    fuel: nat,
    n: nat,
    m: nat,
)
    requires
        0 < n <= m <= bs.len(),
        normalize_arms(rest, i, b0, bs, root, fuel, n).0 is Err,
    ensures
        normalize_arms(rest, i, b0, bs, root, fuel, m) == normalize_arms(rest, i, b0, bs, root, fuel, n),
    decreases m - n,
{
    if m > n {
        lemma_arms_err(rest, i, b0, bs, root, fuel, n, (m - 1) as nat);
    }
}

/// The first position without a lambda, found by a scan.
proof fn lemma_first_value(dv: Seq<(Binder, Tm)>, i: int)
    requires
        0 <= i <= dv.len(),
        forall|d: int| 0 <= d < i ==> (#[trigger] dv[d]).1 is Lam,
        i < dv.len() ==> !(dv[i].1 is Lam),
    ensures
        first_value(dv) == i,
    decreases dv.len(),
{
    if dv.len() > 0 {
        if i < dv.len() - 1 || i == dv.len() {
            if i == dv.len() {
                lemma_first_value(dv.drop_last(), i - 1);
            } else {
                lemma_first_value(dv.drop_last(), i);
            }
        } else {
            lemma_first_value(dv.drop_last(), i);
        }
    }
}

/// The views of definitions with one inserted.
proof fn lemma_def_views_insert(rest: Seq<(Binder, Core)>, index: int, b: Binder, v: Core)
    requires
        0 <= index <= rest.len(),
    ensures
        def_views(rest.insert(index, (b, v))) == def_views(rest).insert(index, (b, v@)),
{
    assert(def_views(rest.insert(index, (b, v))) =~= def_views(rest).insert(index, (b, v@)));
}

/// The views of definitions with one removed.
proof fn lemma_def_views_remove(defs: Seq<(Binder, Core)>, index: int)
    requires
        0 <= index < defs.len(),
    ensures
        def_views(defs.remove(index)) == def_views(defs).remove(index),
        def_views(defs)[index] == (defs[index].0, defs[index].1@),
{
    assert(def_views(defs.remove(index)) =~= def_views(defs).remove(index));
}

/// Naming the group is naming one of the definitions or `b0`.
proof fn lemma_names_group(t: Tm, rest: Seq<(Binder, Core)>, b0: Binder)
    ensures
        names_group(t, def_views(rest), b0) == (mentions(t, rest) || free_in(t, b0.name.unique)),
{
    let dv = def_views(rest);
    if mentions(t, rest) {
        let d = choose|d: int| 0 <= d < rest.len() && free_in(t, (#[trigger] rest[d]).0.name.unique);
        assert(dv[d].0 == rest[d].0);
    }
    if exists|d: int| 0 <= d < dv.len() && free_in(t, (#[trigger] dv[d]).0.name.unique) {
        let d = choose|d: int| 0 <= d < dv.len() && free_in(t, (#[trigger] dv[d]).0.name.unique);
        assert(dv[d].0 == rest[d].0);
    }
}

impl Engine {
    /// Evaluate the function-valued right-hand sides once, then introduce
    /// recursion inside the selected branch. Delayed references stay inside
    /// the resulting lambdas. Each call spends one step of `remaining`.
    fn recursive_bindings(
        &self,
        definitions: Vec<(Binder, Core)>,
        root: Core,
        remaining: &mut usize,
    ) -> (res: Result<Core, Error>)
        ensures
            res matches Ok(r) ==> scoped(r@, root@, definitions@),
            res matches Err(e) ==> (e is RecursionNormalizationLimit || e is RecursiveValue),
            *final(remaining) <= *old(remaining),
            normalize(def_views(definitions@), root@, *old(remaining) as nat) == (res_view(res), *final(remaining) as nat),
        decreases *old(remaining), 0nat,
    {
        if *remaining == 0 {
            return Err(Error::RecursionNormalizationLimit);
        }
        *remaining = *remaining - 1;
        let ghost ds = definitions@;
        let ghost dv = def_views(ds);
        let mut index: usize = 0;
        while index < definitions.len() && is_lam(&definitions[index].1)
            invariant
                index <= definitions@.len(),
                forall|d: int| 0 <= d < index ==> (#[trigger] definitions@[d]).1 is Lam,
            decreases definitions@.len() - index,
        {
            index += 1;
        }
        proof {
            assert forall|d: int| 0 <= d < index implies (#[trigger] dv[d]).1 is Lam by {
                assert(dv[d] == (ds[d].0, ds[d].1@));
                assert(ds[d].1 is Lam);
            }
            if index < ds.len() {
                assert(dv[index as int] == (ds[index as int].0, ds[index as int].1@));
                assert(!(ds[index as int].1 is Lam));
            }
            lemma_first_value(dv, index as int);
        }
        if index == definitions.len() {
            return Ok(let_rec_of(definitions, root));
        }
        let ghost groot = root;
        let mut rest = definitions;
        let (b0, value) = rest.remove(index);
        let ghost grest = rest@;
        let ghost gb0 = b0;
        let ghost gvalue = value;
        proof {
            assert(ds =~= rest@.insert(index as int, (b0, value)));
            lemma_defs_insert(rest@, index as int, b0, value);
            lemma_def_views_remove(ds, index as int);
            assert(ds.remove(index as int) =~= grest);
            lemma_names_group(gvalue@, grest, b0);
            lemma_views(gvalue);
        }
        match value {
            Core::Let { binder, value: v, body } => {
                let ghost gbinder = binder;
                let ghost gv = *v;
                let ghost gbody = *body;
                proof {
                    assert(gvalue@ == Tm::Let(gbinder, Box::new(gv@), Box::new(gbody@)));
                    lemma_names_group(gv@, grest, gb0);
                    lemma_def_views_insert(grest, index as int, gb0, gbody);
                }
                if is_lam(&v) {
                    let mut changed = rest;
                    changed.insert(index, (b0, *body));
                    changed.push((binder, *v));
                    proof {
                        assert(def_views(changed@) =~= def_views(grest).insert(index as int, (gb0, gbody@)).push((gbinder, gv@)));
                    }
                    match self.recursive_bindings(changed, root, remaining) {
                        Ok(r) => {
                            proof {
                                lemma_scoped_let_lam(r@, groot@, grest, index as int, gb0, gvalue, gbinder, gv, gbody);
                            }
                            Ok(r)
                        },
                        Err(e) => Err(e),
                    }
                } else {
                    if mentions_group(&v, &rest, &b0) {
                        return Err(Error::RecursiveValue);
                    }
                    let mut changed = rest;
                    changed.insert(index, (b0, *body));
                    match self.recursive_bindings(changed, root, remaining) {
                        Ok(r1) => {
                            proof {
                                lemma_scoped_let(r1@, groot@, grest, index as int, gb0, gvalue, gbinder, gv, gbody);
                            }
                            let r = Core::Let { binder, value: v, body: Box::new(r1) };
                            proof {
                                assert(r@ == Tm::Let(gbinder, Box::new(gv@), Box::new(r1@)));
                            }
                            Ok(r)
                        },
                        Err(e) => Err(e),
                    }
                }
            },
            Core::LetRec { binders, body } => {
                let ghost gbs = group_views(binders@);
                let ghost gbody = *body;
                proof {
                    lemma_views(gvalue);
                }
                let mut changed = rest;
                changed.insert(index, (b0, *body));
                let ghost base = changed@;
                let mut bs = binders;
                let n = bs.len();
                let mut k: usize = 0;
                while k < n
                    invariant
                        k <= n,
                        n == gbs.len(),
                        bs@.len() == n - k,
                        forall|j: int| 0 <= j < bs@.len() ==> (#[trigger] bs@[j])@ == gbs[k + j],
                        changed@.len() == base.len() + k,
                        changed@.subrange(0, base.len() as int) == base,
                        forall|j: int|
                            0 <= j < k ==> (#[trigger] changed@[base.len() + j]).0 == gbs[j].binder
                                && changed@[base.len() + j].1@ == Tm::Lam(
                                gbs[j].params,
                                Box::new(gbs[j].body),
                            ),
                    decreases n - k,
                {
                    let ghost before = changed@;
                    let b = bs.remove(0);
                    let RecBinder { binder, params, static_params: _, body } = b;
                    changed.push((binder, Core::Lam { params, body: Box::new(body) }));
                    proof {
                        assert(changed@.subrange(0, base.len() as int) =~= before.subrange(0, base.len() as int));
                        assert forall|j: int| 0 <= j < k + 1 implies (#[trigger] changed@[base.len() + j]).0 == gbs[j].binder
                            && changed@[base.len() + j].1@ == Tm::Lam(gbs[j].params, Box::new(gbs[j].body)) by {
                            if j < k {
                                assert(changed@[base.len() + j] == before[base.len() + j]);
                            }
                        }
                    }
                    k += 1;
                }
                let ghost lams = changed@.subrange(base.len() as int, changed@.len() as int);
                proof {
                    assert(changed@ =~= base + lams);
                    assert forall|j: int| 0 <= j < gbs.len() implies (#[trigger] lams[j]).0 == gbs[j].binder
                        && lams[j].1@ == Tm::Lam(gbs[j].params, Box::new(gbs[j].body)) by {
                        assert(lams[j] == changed@[base.len() + j]);
                    }
                }
                proof {
                    lemma_def_views_insert(grest, index as int, gb0, gbody);
                    assert(def_views(lams) =~= lams_of(gbs)) by {
                        assert forall|j: int| 0 <= j < gbs.len() implies #[trigger] def_views(lams)[j] == lams_of(gbs)[j] by {
                            assert(lams[j].0 == gbs[j].binder);
                        }
                    }
                    assert(def_views(changed@) =~= def_views(grest).insert(index as int, (gb0, gbody@)) + lams_of(gbs));
                    assert(gvalue@ == Tm::LetRec(gbs, Box::new(gbody@)));
                }
                match self.recursive_bindings(changed, root, remaining) {
                    Ok(r) => {
                        proof {
                            lemma_scoped_letrec(r@, groot@, grest, index as int, gb0, gvalue, gbs, gbody, lams);
                        }
                        Ok(r)
                    },
                    Err(e) => Err(e),
                }
            },
            Core::Trace { message, body } => {
                let ghost gm = *message;
                let ghost gbody = *body;
                proof {
                    assert(gvalue@ == Tm::Trace(Box::new(gm@), Box::new(gbody@)));
                    lemma_names_group(gm@, grest, gb0);
                    lemma_def_views_insert(grest, index as int, gb0, gbody);
                }
                if mentions_group(&message, &rest, &b0) {
                    return Err(Error::RecursiveValue);
                }
                let mut changed = rest;
                changed.insert(index, (b0, *body));
                match self.recursive_bindings(changed, root, remaining) {
                    Ok(r1) => {
                        proof {
                            lemma_scoped_trace(r1@, groot@, grest, index as int, gb0, gvalue, gm, gbody);
                        }
                        let r = Core::Trace { message, body: Box::new(r1) };
                        proof {
                            assert(r@ == Tm::Trace(Box::new(gm@), Box::new(r1@)));
                        }
                        Ok(r)
                    },
                    Err(e) => Err(e),
                }
            },
            Core::Case { kind, scrutinee, branches, default } => {
                proof {
                    lemma_names_group(scrutinee@, grest, gb0);
                }
                if mentions_group(&scrutinee, &rest, &b0) {
                    return Err(Error::RecursiveValue);
                }
                self.case_bindings(kind, scrutinee, branches, default, &rest, index, &b0, root, remaining, Ghost(gvalue))
            },
            Core::Error => Ok(Core::Error),
            other => {
                if mentions_group(&other, &rest, &b0) {
                    return Err(Error::RecursiveValue);
                }
                match self.recursive_bindings(rest, root, remaining) {
                    Ok(r1) => {
                        proof {
                            lemma_scoped_plain(r1@, groot@, grest, index as int, gb0, gvalue);
                        }
                        let r = Core::Let { binder: b0, value: Box::new(other), body: Box::new(r1) };
                        proof {
                            assert(r@ == Tm::Let(gb0, Box::new(gvalue@), Box::new(r1@)));
                        }
                        Ok(r)
                    },
                    Err(e) => Err(e),
                }
            },
        }
    }

    /// The case arm of `recursive_bindings`: the group is pushed into every
    /// branch and the default, each with its own copy of the definitions.
    fn case_bindings(
        &self,
        kind: CaseKind,
        scrutinee: Box<Core>,
        branches: Vec<Branch>,
        default: Option<Box<Core>>,
        rest: &Vec<(Binder, Core)>,
        index: usize,
        b0: &Binder,
        root: Core,
        remaining: &mut usize,
        Ghost(value): Ghost<Core>,
    ) -> (res: Result<Core, Error>)
        requires
            index <= rest@.len(),
            value == (Core::Case { kind, scrutinee, branches, default }),
            !mentions(scrutinee@, rest@.insert(index as int, (*b0, value))),
        ensures
            res matches Ok(r) ==> scoped(r@, root@, rest@.insert(index as int, (*b0, value))),
            res matches Err(e) ==> (e is RecursionNormalizationLimit || e is RecursiveValue),
            *final(remaining) <= *old(remaining),
            normalize_case(
                def_views(rest@),
                index as int,
                *b0,
                kind,
                scrutinee@,
                branch_views(branches@),
                match default {
                    Some(d) => Some(Box::new(d@)),
                    None => None,
                },
                root@,
                *old(remaining) as nat,
            ) == (res_view(res), *final(remaining) as nat),
        decreases *old(remaining), 1nat,
    {
        let ghost ds = rest@.insert(index as int, (*b0, value));
        let ghost garms = branch_views(branches@);
        proof {
            lemma_views(value);
        }
        let ghost rv = def_views(rest@);
        let ghost f0 = *old(remaining) as nat;
        let ghost gd = match default {
            Some(ref d) => Some(Box::new(d@)),
            None => None,
        };
        let n = branches.len();
        let mut bs = branches;
        let mut out: Vec<Branch> = Vec::new();
        let mut k: usize = 0;
        proof {
            assert(branch_views(out@) =~= Seq::<BranchTm>::empty());
        }
        while k < n
            invariant
                k <= n,
                n == garms.len(),
                rv == def_views(rest@),
                f0 == *old(remaining) as nat,
                garms == branch_views(branches@),
                gd == match default {
                    Some(d) => Some(Box::new(d@)),
                    None => None,
                },
                normalize_arms(rv, index as int, *b0, garms, root@, f0, k as nat) == (Ok::<Seq<BranchTm>, Error>(branch_views(out@)), *remaining as nat),
                index <= rest@.len(),
                ds == rest@.insert(index as int, (*b0, value)),
                value@ == Tm::Case(kind, Box::new(scrutinee@), garms, match default {
                    Some(d) => Some(Box::new(d@)),
                    None => None,
                }),
                bs@.len() == n - k,
                forall|j: int| 0 <= j < bs@.len() ==> (#[trigger] bs@[j])@ == garms[k + j],
                out@.len() == k,
                forall|j: int|
                    0 <= j < k ==> (#[trigger] out@[j]).test@ == garms[j].test && out@[j].binders@
                        == garms[j].binders && scoped_under(
                        out@[j].body@,
                        binder_uniques(garms[j].binders),
                        root@,
                        ds,
                    ),
                *remaining <= *old(remaining),
            decreases n - k,
        {
            let Branch { test, binders, body } = bs.remove(0);
            let ghost gbody = body;
            proof {
                assert(garms[k as int].body == body@);
                assert forall|u: u32| free_in(body@, u) && !binder_uniques(binders@).contains(u) implies free_in(value@, u) by {
                    lemma_free_in_branches(garms, u);
                }
            }
            let mut changed = duplicate_defs(rest);
            let ghost dup = changed@;
            let ghost before = branch_views(out@);
            let ghost rem0 = *remaining as nat;
            changed.insert(index, (b0.duplicate(), body));
            proof {
                assert(def_views(dup) =~= rv);
                lemma_def_views_insert(dup, index as int, *b0, gbody);
            }
            match self.recursive_bindings(changed, root.duplicate(), remaining) {
                Ok(r) => {
                    proof {
                        lemma_scoped_arm(r@, binder_uniques(binders@), gbody, root@, rest@, dup, index as int, *b0, value);
                    }
                    let nb = Branch { test, binders, body: r };
                    let ghost gnb = nb@;
                    out.push(nb);
                    proof {
                        assert(gnb == BranchTm { test: garms[k as int].test, binders: garms[k as int].binders, body: r@ });
                        assert(branch_views(out@) =~= before.push(gnb));
                    }
                },
                Err(e) => {
                    proof {
                        assert(at_most(rem0, f0) == rem0);
                        assert(normalize(rv.insert(index as int, (*b0, garms[k as int].body)), root@, rem0) == (Err::<Tm, Error>(e), *remaining as nat));
                        assert(normalize_arms(rv, index as int, *b0, garms, root@, f0, (k + 1) as nat) == (Err::<Seq<BranchTm>, Error>(e), *remaining as nat));
                        lemma_arms_err(rv, index as int, *b0, garms, root@, f0, (k + 1) as nat, n as nat);
                        assert(garms.len() == n);
                        assert(normalize_arms(rv, index as int, *b0, garms, root@, f0, garms.len()) == (Err::<Seq<BranchTm>, Error>(e), *remaining as nat));
                        assert(normalize_case(rv, index as int, *b0, kind, scrutinee@, garms, gd, root@, f0) == (Err::<Tm, Error>(e), *remaining as nat));
                    }
                    return Err(e);
                },
            }
            k += 1;
        }
        let new_default = match default {
            Some(d) => {
                let ghost gd = *d;
                proof {
                    assert forall|u: u32| free_in(gd@, u) && !Seq::<u32>::empty().contains(u) implies free_in(value@, u) by {}
                }
                let mut changed = duplicate_defs(rest);
                let ghost dup = changed@;
                changed.insert(index, (b0.duplicate(), *d));
                proof {
                    assert(def_views(dup) =~= rv);
                    lemma_def_views_insert(dup, index as int, *b0, gd);
                    assert(k == n);
                }
                match self.recursive_bindings(changed, root.duplicate(), remaining) {
                    Ok(r) => {
                        proof {
                            lemma_scoped_arm(r@, Seq::<u32>::empty(), gd, root@, rest@, dup, index as int, *b0, value);
                        }
                        Some(Box::new(r))
                    },
                    Err(e) => {
                        return Err(e);
                    },
                }
            },
            None => None,
        };
        let ghost arms = branch_views(out@);
        let ghost gnd = new_default;
        let ghost nd = match gnd {
            Some(d) => Some(Box::new(d@)),
            None => None,
        };
        proof {
            assert forall|u: u32| free_in(scrutinee@, u) implies free_in(root@, u) || def_free(ds, u) by {
                assert(free_in(value@, u));
                assert(ds[index as int].1 == value);
            }
            assert forall|i: int| 0 <= i < arms.len() implies scoped_under(
                (#[trigger] arms[i]).body,
                binder_uniques(arms[i].binders),
                root@,
                ds,
            ) by {
                assert(arms[i] == out@[i]@);
            }
            if new_default is Some {
                assert(scoped(*nd->0, root@, ds)) by {
                    assert forall|u: u32| free_in(*nd->0, u) implies !def_name(ds, u) && (free_in(root@, u) || def_free(ds, u)) by {
                        assert(!Seq::<u32>::empty().contains(u));
                    }
                }
            }
            lemma_scoped_case(kind, scrutinee@, arms, nd, root@, ds);
        }
        let r = Core::Case { kind, scrutinee, branches: out, default: new_default };
        proof {
            lemma_views(r);
        }
        Ok(r)
    }
}


/// The name bound by the `k`-th selected specialization.
pub open spec fn sel_name(specs: Seq<InstanceBody>, sel: Seq<usize>, k: int) -> u32 {
    specs[sel[k] as int].binder.name.unique
}

/// The value of the `k`-th selected specialization, if it has one.
pub open spec fn sel_value(specs: Seq<InstanceBody>, sel: Seq<usize>, k: int) -> Option<Core> {
    specs[sel[k] as int].value
}

/// `n` holds every name free in `root`, and with the name of a selected
/// specialization that has a value, every name free in that value.
pub open spec fn closed_names(specs: Seq<InstanceBody>, sel: Seq<usize>, root: Tm, n: Set<u32>) -> bool {
    &&& forall|u: u32| #[trigger] free_in(root, u) ==> n.contains(u)
    &&& forall|k: int, u: u32|
        #![trigger n.contains(sel_name(specs, sel, k)), free_in(sel_value(specs, sel, k)->0@, u)]
        0 <= k < sel.len() && n.contains(sel_name(specs, sel, k)) && sel_value(specs, sel, k) is Some
            && free_in(sel_value(specs, sel, k)->0@, u) ==> n.contains(u)
}

/// `u` lies in every closed set: `root` needs it, directly or through the
/// values of the selected specializations it needs.
pub open spec fn needed_name(specs: Seq<InstanceBody>, sel: Seq<usize>, root: Tm, u: u32) -> bool {
    forall|n: Set<u32>| #[trigger] closed_names(specs, sel, root, n) ==> n.contains(u)
}

/// Some selected specialization has no value yet and is needed
/// (or, when `reach` is false, is selected at all).
pub open spec fn missing(specs: Seq<InstanceBody>, sel: Seq<usize>, root: Tm, reach: bool) -> bool {
    exists|k: int|
        0 <= k < sel.len() && (#[trigger] sel_value(specs, sel, k)) is None && (!reach || needed_name(
            specs,
            sel,
            root,
            sel_name(specs, sel, k),
        ))
}

/// Add the names free in `core` to `set`.
fn add_names(set: &mut HashSet<u32>, core: &Core)
    ensures
        forall|u: u32| final(set)@.contains(u) <==> (old(set)@.contains(u) || free_in(core@, u)),
        old(set)@.subset_of(final(set)@),
        old(set)@.finite() ==> final(set)@.finite(),
{
    let fv = free_variables(core);
    proof {
        lemma_free_variables_exact(core@);
    }
    let mut i: usize = 0;
    while i < fv.len()
        invariant
            i <= fv@.len(),
            old(set)@.finite() ==> set@.finite(),
            forall|u: u32| set@.contains(u) <==> (old(set)@.contains(u) || exists|k: int| 0 <= k < i && (#[trigger] fv@[k]).unique == u),
        decreases fv@.len() - i,
    {
        let ghost prev = set@;
        set.insert(fv[i].unique);
        i += 1;
        assert forall|u: u32| set@.contains(u) <==> (old(set)@.contains(u) || exists|k: int| 0 <= k < i && (#[trigger] fv@[k]).unique == u) by {
            if exists|k: int| 0 <= k < i && (#[trigger] fv@[k]).unique == u {
                let k = choose|k: int| 0 <= k < i && (#[trigger] fv@[k]).unique == u;
                if k < i - 1 {
                    assert(prev.contains(u));
                }
            }
            if prev.contains(u) && !old(set)@.contains(u) {
                let k = choose|k: int| 0 <= k < i - 1 && (#[trigger] fv@[k]).unique == u;
                assert(0 <= k < i);
            }
        }
    }
    assert forall|u: u32| set@.contains(u) <==> (old(set)@.contains(u) || free_in(core@, u)) by {
        assert(has_unique(fv@, u) <==> free_in(core@, u));
    }
    assert forall|u: u32| old(set)@.contains(u) implies set@.contains(u) by {
        assert(set@.contains(u) <==> (old(set)@.contains(u) || free_in(core@, u)));
    }
}

/// A finite set equals each finite subset of the same size.
proof fn lemma_subset_same_len(a: Set<u32>, b: Set<u32>)
    requires
        b.finite(),
        a.subset_of(b),
        a.len() == b.len(),
    ensures
        a == b,
{
    vstd::set_lib::lemma_len_subset(a, b);
    if !(a =~= b) {
        let x = choose|x: u32| !(a.contains(x) <==> b.contains(x));
        assert(b.contains(x) && !a.contains(x));
        assert(a.subset_of(b.remove(x)));
        vstd::set_lib::lemma_len_subset(a, b.remove(x));
    }
    assert(a =~= b);
}

impl Engine {
    /// The names that `root` needs through the selected specializations, or
    /// the error for a needed one that is still being compiled.
    fn needed_names(&self, selected: &Vec<usize>, root: &Core) -> (res: Result<HashSet<u32>, Error>)
        requires
            forall|k: int| 0 <= k < selected@.len() ==> selected@[k] < self.specs@.len(),
        ensures
            res is Ok <==> !missing(self.specs@, selected@, root@, true),
            res matches Ok(n) ==> closed_names(self.specs@, selected@, root@, n@),
            res matches Ok(n) ==> forall|u: u32| n@.contains(u) ==> needed_name(self.specs@, selected@, root@, u),
            res matches Err(e) ==> e is ComptimeAssembly && e->ComptimeAssembly_0@ == pending_message(true),
    {
        let ghost specs = self.specs@;
        let ghost sel = selected@;
        let mut needed = names(root);
        loop
            invariant
                forall|k: int| 0 <= k < sel.len() ==> sel[k] < specs.len(),
                specs == self.specs@,
                sel == selected@,
                needed@.finite(),
                forall|u: u32| free_in(root@, u) ==> needed@.contains(u),
                forall|u: u32| needed@.contains(u) ==> needed_name(specs, sel, root@, u),
            ensures
                closed_names(specs, sel, root@, needed@),
                forall|j: int| 0 <= j < sel.len() && needed@.contains(sel_name(specs, sel, j)) ==> (#[trigger] sel_value(specs, sel, j)) is Some,
            decreases usize::MAX - needed@.len(),
        {
            let before_len = needed.len();
            let ghost before = needed@;
            let mut k: usize = 0;
            while k < selected.len()
                invariant
                    forall|k: int| 0 <= k < sel.len() ==> sel[k] < specs.len(),
                    specs == self.specs@,
                    sel == selected@,
                    k <= sel.len(),
                    needed@.finite(),
                    before.subset_of(needed@),
                    before.len() == before_len,
                    forall|u: u32| needed@.contains(u) ==> needed_name(specs, sel, root@, u),
                    forall|j: int| 0 <= j < k && before.contains(sel_name(specs, sel, j)) ==> (#[trigger] sel_value(specs, sel, j)) is Some,
                    forall|j: int, u: u32|
                        #![trigger sel_value(specs, sel, j), needed@.contains(u)]
                        0 <= j < k && before.contains(sel_name(specs, sel, j)) && sel_value(specs, sel, j) is Some
                            && free_in(sel_value(specs, sel, j)->0@, u) ==> needed@.contains(u),
                decreases sel.len() - k,
            {
                let ghost start = needed@;
                let i = selected[k];
                if needed.contains(&self.specs[i].binder.name.unique) {
                    match &self.specs[i].value {
                        Some(v) => {
                            let ghost prev = needed@;
                            add_names(&mut needed, v);
                            proof {
                                assert(sel_value(specs, sel, k as int) == Some(*v));
                                assert(start.subset_of(needed@));
                                assert forall|u: u32| needed@.contains(u) implies needed_name(specs, sel, root@, u) by {
                                    if !prev.contains(u) {
                                        assert(free_in(v@, u));
                                        assert forall|n: Set<u32>| #[trigger] closed_names(specs, sel, root@, n) implies n.contains(u) by {
                                            assert(n.contains(sel_name(specs, sel, k as int)));
                                        }
                                    }
                                }
                            }
                        },
                        None => {
                            proof {
                                assert(sel_value(specs, sel, k as int) is None);
                                assert(needed_name(specs, sel, root@, sel_name(specs, sel, k as int)));
                            }
                            return Err(Error::ComptimeAssembly("recursive dependency is still being compiled".to_string()));
                        },
                    }
                }
                proof {
                    assert forall|j: int, u: u32|
                        0 <= j < k + 1 && before.contains(sel_name(specs, sel, j)) && sel_value(specs, sel, j) is Some
                            && free_in(sel_value(specs, sel, j)->0@, u) implies needed@.contains(u) by {
                        if j < k {
                            assert(start.contains(u));
                        } else {
                            assert(start.contains(sel_name(specs, sel, j)));
                        }
                    }
                    assert forall|j: int| 0 <= j < k + 1 && before.contains(sel_name(specs, sel, j)) implies (#[trigger] sel_value(specs, sel, j)) is Some by {
                        if j == k {
                            assert(start.contains(sel_name(specs, sel, j)));
                        }
                    }
                }
                k += 1;
            }
            if needed.len() == before_len {
                proof {
                    lemma_subset_same_len(before, needed@);
                    assert forall|j: int, u: u32|
                        0 <= j < sel.len() && needed@.contains(sel_name(specs, sel, j)) && sel_value(specs, sel, j) is Some
                            && free_in(sel_value(specs, sel, j)->0@, u) implies needed@.contains(u) by {
                        assert(before.contains(sel_name(specs, sel, j)));
                    }
                }
                break;
            }
            proof {
                vstd::set_lib::lemma_len_subset(before, needed@);
            }
        }
        proof {
            if missing(specs, sel, root@, true) {
                let k = choose|k: int|
                    0 <= k < sel.len() && (#[trigger] sel_value(specs, sel, k)) is None && (!true || needed_name(
                        specs,
                        sel,
                        root@,
                        sel_name(specs, sel, k),
                    ));
                assert(needed@.contains(sel_name(specs, sel, k)));
            }
        }
        Ok(needed)
    }
}


/// The selected specializations whose names `n` holds, in selection order.
pub open spec fn kept_sel(specs: Seq<InstanceBody>, sel: Seq<usize>, n: Set<u32>) -> Seq<usize>
    decreases sel.len(),
{
    if sel.len() == 0 {
        Seq::empty()
    } else if n.contains(specs[sel.last() as int].binder.name.unique) {
        kept_sel(specs, sel.drop_last(), n).push(sel.last())
    } else {
        kept_sel(specs, sel.drop_last(), n)
    }
}

/// What `kept_sel` keeps: exactly the selected entries whose names `n` holds.
pub proof fn lemma_kept_sel(specs: Seq<InstanceBody>, sel: Seq<usize>, n: Set<u32>)
    ensures
        forall|j: int|
            0 <= j < kept_sel(specs, sel, n).len() ==> sel.contains(#[trigger] kept_sel(specs, sel, n)[j])
                && n.contains(specs[kept_sel(specs, sel, n)[j] as int].binder.name.unique),
        forall|k: int|
            0 <= k < sel.len() && n.contains(specs[sel[k] as int].binder.name.unique) ==> kept_sel(
                specs,
                sel,
                n,
            ).contains(#[trigger] sel[k]),
    decreases sel.len(),
{
    if sel.len() > 0 {
        let init = sel.drop_last();
        lemma_kept_sel(specs, init, n);
        let ki = kept_sel(specs, init, n);
        let kk = kept_sel(specs, sel, n);
        assert forall|j: int| 0 <= j < kk.len() implies sel.contains(#[trigger] kk[j]) && n.contains(
            specs[kk[j] as int].binder.name.unique,
        ) by {
            if j < ki.len() {
                assert(kk[j] == ki[j]);
                let k = choose|k: int| 0 <= k < init.len() && init[k] == ki[j];
                assert(sel[k] == init[k]);
            } else {
                assert(kk[j] == sel.last());
                assert(sel[sel.len() - 1] == sel.last());
            }
        }
        assert forall|k: int| 0 <= k < sel.len() && n.contains(specs[sel[k] as int].binder.name.unique) implies kk.contains(
            #[trigger] sel[k],
        ) by {
            if k < sel.len() - 1 {
                assert(init[k] == sel[k]);
                assert(ki.contains(init[k]));
                let j = choose|j: int| 0 <= j < ki.len() && ki[j] == init[k];
                assert(kk[j] == ki[j]);
            } else {
                assert(kk[kk.len() - 1] == sel.last());
            }
        }
    }
}

/// `d` lists the selected specializations, each with its value.
pub open spec fn lists_values(specs: Seq<InstanceBody>, sel: Seq<usize>, d: Seq<(Binder, Core)>) -> bool {
    &&& d.len() == sel.len()
    &&& forall|k: int|
        0 <= k < sel.len() ==> (#[trigger] d[k]).0 == specs[sel[k] as int].binder && sel_value(specs, sel, k)
            is Some && d[k].1@ == sel_value(specs, sel, k)->0@
}

/// Each edge `a -> b` is a name of definition `b` free in the value of `a`.
pub open spec fn edges_sound(defs: Seq<(Binder, Core)>, edges: Seq<Vec<usize>>) -> bool {
    forall|a: int, j: int|
        #![trigger edges[a]@[j]]
        0 <= a < edges.len() && 0 <= j < edges[a]@.len() ==> free_in(
            defs[a].1@,
            defs[edges[a]@[j] as int].0.name.unique,
        )
}

/// Each name of a definition free in the value of another is an edge.
pub open spec fn edges_complete(defs: Seq<(Binder, Core)>, edges: Seq<Vec<usize>>) -> bool {
    forall|a: int, b: int|
        #![trigger free_in(defs[a].1@, defs[b].0.name.unique)]
        0 <= a < defs.len() && 0 <= b < defs.len() && free_in(defs[a].1@, defs[b].0.name.unique)
            ==> edges[a]@.contains(b as usize)
}

/// The dependency graph of `defs`: an edge from each definition to every
/// definition whose name is free in its value.
fn dependency_edges(defs: &Vec<(Binder, Core)>) -> (edges: Vec<Vec<usize>>)
    ensures
        edges@.len() == defs@.len(),
        valid_edges(edges@),
        edges_sound(defs@, edges@),
        edges_complete(defs@, edges@),
{
    let n = defs.len();
    let mut edges: Vec<Vec<usize>> = Vec::new();
    let mut a: usize = 0;
    while a < n
        invariant
            n == defs@.len(),
            a <= n,
            edges@.len() == a,
            forall|x: int, j: int|
                #![trigger edges@[x]@[j]]
                0 <= x < a && 0 <= j < edges@[x]@.len() ==> edges@[x]@[j] < n && free_in(
                    defs@[x].1@,
                    defs@[edges@[x]@[j] as int].0.name.unique,
                ),
            forall|x: int, b: int|
                #![trigger free_in(defs@[x].1@, defs@[b].0.name.unique)]
                0 <= x < a && 0 <= b < n && free_in(defs@[x].1@, defs@[b].0.name.unique)
                    ==> edges@[x]@.contains(b as usize),
        decreases n - a,
    {
        let used = names(&defs[a].1);
        let mut row: Vec<usize> = Vec::new();
        let mut b: usize = 0;
        while b < n
            invariant
                n == defs@.len(),
                a < n,
                b <= n,
                used@ == free_set(defs@[a as int].1@),
                forall|j: int| 0 <= j < row@.len() ==> row@[j] < b && free_in(
                    defs@[a as int].1@,
                    defs@[row@[j] as int].0.name.unique,
                ),
                forall|y: int| 0 <= y < b && free_in(defs@[a as int].1@, defs@[y].0.name.unique) ==> row@.contains(y as usize),
            decreases n - b,
        {
            if used.contains(&defs[b].0.name.unique) {
                let ghost prev = row@;
                row.push(b);
                proof {
                    assert forall|y: int| 0 <= y < b + 1 && free_in(defs@[a as int].1@, defs@[y].0.name.unique) implies row@.contains(y as usize) by {
                        if y < b {
                            let j = choose|j: int| 0 <= j < prev.len() && prev[j] == y as usize;
                            assert(row@[j] == prev[j]);
                        } else {
                            assert(row@[row@.len() - 1] == b);
                        }
                    }
                }
            } else {
                proof {
                    assert forall|y: int| 0 <= y < b + 1 && free_in(defs@[a as int].1@, defs@[y].0.name.unique) implies row@.contains(y as usize) by {
                        if y == b {
                            assert(free_set(defs@[a as int].1@).contains(defs@[y].0.name.unique));
                        }
                    }
                }
            }
            b += 1;
        }
        let ghost prev_edges = edges@;
        edges.push(row);
        proof {
            assert forall|x: int, j: int| 0 <= x < a + 1 && 0 <= j < edges@[x]@.len() implies edges@[x]@[j] < n && free_in(
                defs@[x].1@,
                defs@[edges@[x]@[j] as int].0.name.unique,
            ) by {
                if x < a {
                    assert(edges@[x] == prev_edges[x]);
                }
            }
            assert forall|x: int, b: int| 0 <= x < a + 1 && 0 <= b < n && free_in(defs@[x].1@, defs@[b].0.name.unique) implies edges@[x]@.contains(b as usize) by {
                if x < a {
                    assert(edges@[x] == prev_edges[x]);
                }
            }
        }
        a += 1;
    }
    edges
}

/// Whether `row` holds `x`.
fn has_edge(row: &Vec<usize>, x: usize) -> (r: bool)
    ensures
        r == row@.contains(x),
{
    let mut j: usize = 0;
    while j < row.len()
        invariant
            j <= row@.len(),
            forall|k: int| 0 <= k < j ==> row@[k] != x,
        decreases row@.len() - j,
    {
        if row[j] == x {
            return true;
        }
        j += 1;
    }
    false
}

impl Engine {
    /// The selected specializations whose names `needed` holds.
    fn retain_needed(&self, selected: &Vec<usize>, needed: &HashSet<u32>) -> (r: Vec<usize>)
        requires
            forall|k: int| 0 <= k < selected@.len() ==> selected@[k] < self.specs@.len(),
        ensures
            r@ == kept_sel(self.specs@, selected@, needed@),
    {
        let ghost specs = self.specs@;
        let mut out: Vec<usize> = Vec::new();
        let mut k: usize = 0;
        while k < selected.len()
            invariant
                k <= selected@.len(),
                specs == self.specs@,
                forall|k: int| 0 <= k < selected@.len() ==> selected@[k] < specs.len(),
                out@ == kept_sel(specs, selected@.take(k as int), needed@),
            decreases selected@.len() - k,
        {
            proof {
                assert(selected@.take(k + 1).drop_last() =~= selected@.take(k as int));
                assert(selected@.take(k + 1).last() == selected@[k as int]);
            }
            if needed.contains(&self.specs[selected[k]].binder.name.unique) {
                out.push(selected[k]);
            }
            k += 1;
        }
        proof {
            assert(selected@.take(selected@.len() as int) =~= selected@);
        }
        out
    }

    /// The selected specializations as definitions, or the error for one
    /// that is still being compiled.
    fn definitions(&self, selected: &Vec<usize>, Ghost(root): Ghost<Tm>) -> (res: Result<Vec<(Binder, Core)>, Error>)
        requires
            forall|k: int| 0 <= k < selected@.len() ==> selected@[k] < self.specs@.len(),
        ensures
            res is Ok <==> !missing(self.specs@, selected@, root, false),
            res matches Ok(d) ==> lists_values(self.specs@, selected@, d@),
            res matches Err(e) ==> e is ComptimeAssembly && e->ComptimeAssembly_0@ == pending_message(false),
    {
        let ghost specs = self.specs@;
        let ghost sel = selected@;
        let mut d: Vec<(Binder, Core)> = Vec::new();
        let mut k: usize = 0;
        while k < selected.len()
            invariant
                k <= sel.len(),
                specs == self.specs@,
                sel == selected@,
                forall|k: int| 0 <= k < sel.len() ==> sel[k] < specs.len(),
                d@.len() == k,
                forall|j: int|
                    0 <= j < k ==> (#[trigger] d@[j]).0 == specs[sel[j] as int].binder && sel_value(specs, sel, j)
                        is Some && d@[j].1@ == sel_value(specs, sel, j)->0@,
            decreases sel.len() - k,
        {
            let spec = &self.specs[selected[k]];
            match &spec.value {
                Some(v) => {
                    d.push((spec.binder.duplicate(), v.duplicate()));
                },
                None => {
                    proof {
                        assert(sel_value(specs, sel, k as int) is None);
                        let kk = k as int;
                        assert(0 <= kk < sel.len());
                        assert(sel_value(specs, sel, kk) is None);
                        assert(!false || needed_name(specs, sel, root, sel_name(specs, sel, kk)));
                        assert(missing(specs, sel, root, false));
                    }
                    return Err(Error::ComptimeAssembly("dependency is still being compiled".to_string()));
                },
            }
            k += 1;
        }
        proof {
            if missing(specs, sel, root, false) {
                let k = choose|k: int|
                    0 <= k < sel.len() && (#[trigger] sel_value(specs, sel, k)) is None && (!false || needed_name(
                        specs,
                        sel,
                        root,
                        sel_name(specs, sel, k),
                    ));
                assert(d@[k].0 == specs[sel[k] as int].binder);
                assert(sel_value(specs, sel, k) is Some);
            }
        }
        Ok(d)
    }
}


/// Definition `a` lies in component `q` or a later one.
pub open spec fn processed(cs: Seq<Seq<usize>>, q: int, a: int) -> bool {
    exists|p: int| q <= p < cs.len() && #[trigger] comp_has(cs, p, a as usize)
}

/// `u` is free in `root` or in the value of a definition of components
/// `q..`, and none of those definitions binds it.
pub open spec fn nested_at(defs: Seq<(Binder, Core)>, cs: Seq<Seq<usize>>, q: int, root: Tm, u: u32) -> bool {
    &&& (free_in(root, u) || exists|a: int|
        0 <= a < defs.len() && processed(cs, q, a) && free_in(#[trigger] defs[a].1@, u))
    &&& forall|a: int| 0 <= a < defs.len() && processed(cs, q, a) ==> (#[trigger] defs[a]).0.name.unique != u
}

/// Every name free in `t` is as `nested_at` says.
pub open spec fn nested(defs: Seq<(Binder, Core)>, cs: Seq<Seq<usize>>, q: int, root: Tm, t: Tm) -> bool {
    forall|u: u32| #[trigger] free_in(t, u) ==> nested_at(defs, cs, q, root, u)
}

/// What the components of a dependency graph of `defs` guarantee.
pub open spec fn ordered_graph(defs: Seq<(Binder, Core)>, edges: Seq<Vec<usize>>, cs: Seq<Seq<usize>>) -> bool {
    &&& edges.len() == defs.len()
    &&& defs.len() <= usize::MAX
    &&& valid_edges(edges)
    &&& edges_sound(defs, edges)
    &&& edges_complete(defs, edges)
    &&& partition_of(defs.len(), cs)
    &&& dependency_ordered(edges, cs)
}

/// The value of a definition of component `q` does not name a definition
/// of a later component.
proof fn lemma_later_binder(
    defs: Seq<(Binder, Core)>,
    edges: Seq<Vec<usize>>,
    cs: Seq<Seq<usize>>,
    q: int,
    i: int,
    a: int,
    u: u32,
)
    requires
        ordered_graph(defs, edges, cs),
        0 <= q < cs.len(),
        0 <= i < cs[q].len(),
        0 <= a < defs.len(),
        processed(cs, q + 1, a),
        free_in(defs[cs[q][i] as int].1@, u),
    ensures
        defs[a].0.name.unique != u,
{
    let src = cs[q][i] as int;
    if defs[a].0.name.unique == u {
        assert(free_in(defs[src].1@, defs[a].0.name.unique));
        assert(edges[src]@.contains(a as usize));
        let j = choose|j: int| 0 <= j < edges[src]@.len() && edges[src]@[j] == a as usize;
        assert(at_or_before(cs, q, edges[cs[q][i] as int]@[j]));
        let p1 = choose|p1: int| 0 <= p1 <= q && #[trigger] comp_has(cs, p1, a as usize);
        let p2 = choose|p2: int| q + 1 <= p2 < cs.len() && #[trigger] comp_has(cs, p2, a as usize);
        let i1 = choose|i1: int| 0 <= i1 < cs[p1].len() && cs[p1][i1] == a as usize;
        let i2 = choose|i2: int| 0 <= i2 < cs[p2].len() && cs[p2][i2] == a as usize;
        assert(cs[p1][i1] == cs[p2][i2]);
    }
}

/// Wrapping a recursive component around the body keeps it nested.
proof fn lemma_nest_group(
    defs: Seq<(Binder, Core)>,
    edges: Seq<Vec<usize>>,
    cs: Seq<Seq<usize>>,
    q: int,
    group: Seq<(Binder, Core)>,
    root: Tm,
    body: Tm,
    r: Tm,
)
    requires
        ordered_graph(defs, edges, cs),
        0 <= q < cs.len(),
        group.len() == cs[q].len(),
        forall|k: int|
            0 <= k < group.len() ==> (#[trigger] group[k]).0 == defs[cs[q][k] as int].0 && group[k].1@
                == defs[cs[q][k] as int].1@,
        scoped(r, body, group),
        nested(defs, cs, q + 1, root, body),
    ensures
        nested(defs, cs, q, root, r),
{
    assert forall|u: u32| #[trigger] free_in(r, u) implies nested_at(defs, cs, q, root, u) by {
        if free_in(body, u) {
            assert(nested_at(defs, cs, q + 1, root, u));
            if !free_in(root, u) {
                let a = choose|a: int| 0 <= a < defs.len() && processed(cs, q + 1, a) && free_in(#[trigger] defs[a].1@, u);
                let p = choose|p: int| q + 1 <= p < cs.len() && #[trigger] comp_has(cs, p, a as usize);
                assert(processed(cs, q, a));
            }
        } else {
            assert(def_free(group, u));
            let k = choose|k: int| 0 <= k < group.len() && free_in((#[trigger] group[k]).1@, u);
            let a = cs[q][k] as int;
            assert(comp_has(cs, q, a as usize)) by {
                assert(cs[q][k] == a as usize);
            }
            assert(processed(cs, q, a));
            assert(free_in(defs[a].1@, u));
        }
        assert forall|a: int| 0 <= a < defs.len() && processed(cs, q, a) implies (#[trigger] defs[a]).0.name.unique != u by {
            let p = choose|p: int| q <= p < cs.len() && #[trigger] comp_has(cs, p, a as usize);
            if p == q {
                assert(cs[p].contains(a as usize));
                let i = choose|i: int| 0 <= i < cs[q].len() && cs[q][i] == a as usize;
                assert(cs[q][i] as int == a);
                assert(group[i].0 == defs[a].0);
                if defs[a].0.name.unique == u {
                    assert(group[i].0.name.unique == u);
                    assert(def_name(group, u));
                }
            } else {
                assert(processed(cs, q + 1, a));
                if free_in(body, u) {
                    assert(nested_at(defs, cs, q + 1, root, u));
                } else {
                    let k = choose|k: int| 0 <= k < group.len() && free_in((#[trigger] group[k]).1@, u);
                    lemma_later_binder(defs, edges, cs, q, k, a, u);
                }
            }
        }
    }
}

/// Wrapping a single non-recursive definition around the body keeps it nested.
proof fn lemma_nest_single(
    defs: Seq<(Binder, Core)>,
    edges: Seq<Vec<usize>>,
    cs: Seq<Seq<usize>>,
    q: int,
    root: Tm,
    body: Tm,
    r: Tm,
)
    requires
        ordered_graph(defs, edges, cs),
        0 <= q < cs.len(),
        cs[q].len() == 1,
        !edges[cs[q][0] as int]@.contains(cs[q][0]),
        r == Tm::Let(defs[cs[q][0] as int].0, Box::new(defs[cs[q][0] as int].1@), Box::new(body)),
        nested(defs, cs, q + 1, root, body),
    ensures
        nested(defs, cs, q, root, r),
{
    let a0 = cs[q][0] as int;
    assert(comp_has(cs, q, a0 as usize)) by {
        assert(cs[q][0] == a0 as usize);
    }
    assert forall|u: u32| #[trigger] free_in(r, u) implies nested_at(defs, cs, q, root, u) by {
        if free_in(defs[a0].1@, u) {
            assert(processed(cs, q, a0));
        } else {
            assert(free_in(body, u));
            assert(nested_at(defs, cs, q + 1, root, u));
            if !free_in(root, u) {
                let a = choose|a: int| 0 <= a < defs.len() && processed(cs, q + 1, a) && free_in(#[trigger] defs[a].1@, u);
                let p = choose|p: int| q + 1 <= p < cs.len() && #[trigger] comp_has(cs, p, a as usize);
                assert(processed(cs, q, a));
            }
        }
        assert forall|a: int| 0 <= a < defs.len() && processed(cs, q, a) implies (#[trigger] defs[a]).0.name.unique != u by {
            let p = choose|p: int| q <= p < cs.len() && #[trigger] comp_has(cs, p, a as usize);
            if p == q {
                assert(cs[p].contains(a as usize));
                let i = choose|i: int| 0 <= i < cs[q].len() && cs[q][i] == a as usize;
                assert(i == 0);
                assert(a == a0);
                if free_in(defs[a0].1@, u) && defs[a0].0.name.unique == u {
                    assert(edges[a0]@.contains(a0 as usize));
                }
            } else {
                assert(processed(cs, q + 1, a));
                if free_in(defs[a0].1@, u) {
                    lemma_later_binder(defs, edges, cs, q, 0, a, u);
                } else {
                    assert(nested_at(defs, cs, q + 1, root, u));
                }
            }
        }
    }
}

/// The definitions that component `comp` lists.
pub open spec fn comp_defs(dv: Seq<(Binder, Tm)>, comp: Seq<usize>) -> Seq<(Binder, Tm)> {
    Seq::new(comp.len(), |k: int| dv[comp[k] as int])
}

/// A component is recursive: it has several definitions, or one whose value
/// names itself.
pub open spec fn self_named(dv: Seq<(Binder, Tm)>, comp: Seq<usize>) -> bool {
    comp.len() > 1 || free_in(dv[comp[0] as int].1, dv[comp[0] as int].0.name.unique)
}

/// The budget of normalization steps for one recursive component.
pub open spec fn component_budget() -> nat {
    4096
}

/// Components `q..` of `cs` bound around `root`, each outside the ones
/// after it: a recursive component normalized, any other as a `let`.
pub open spec fn nest_from(dv: Seq<(Binder, Tm)>, cs: Seq<Seq<usize>>, root: Tm, q: int) -> Result<Tm, Error>
    decreases cs.len() - q,
{
    if q < 0 || q >= cs.len() {
        Ok(root)
    } else {
        match nest_from(dv, cs, root, q + 1) {
            Err(e) => Err(e),
            Ok(body) => if self_named(dv, cs[q]) {
                normalize(comp_defs(dv, cs[q]), body, component_budget()).0
            } else {
                Ok(Tm::Let(dv[cs[q][0] as int].0, Box::new(dv[cs[q][0] as int].1), Box::new(body)))
            },
        }
    }
}

/// A failure in an inner component is the failure of the whole nesting.
proof fn lemma_nest_err(dv: Seq<(Binder, Tm)>, cs: Seq<Seq<usize>>, root: Tm, p: int, q: int)
    requires
        0 <= p <= q < cs.len(),
        nest_from(dv, cs, root, q) is Err,
    ensures
        nest_from(dv, cs, root, p) == nest_from(dv, cs, root, q),
    decreases q - p,
{
    if p < q {
        lemma_nest_err(dv, cs, root, p + 1, q);
    }
}

/// Copies of the definitions that `component` lists, in its order.
fn component_defs(defs: &Vec<(Binder, Core)>, component: &Vec<usize>) -> (r: Vec<(Binder, Core)>)
    requires
        forall|k: int| 0 <= k < component@.len() ==> component@[k] < defs@.len(),
    ensures
        r@.len() == component@.len(),
        forall|k: int|
            0 <= k < component@.len() ==> (#[trigger] r@[k]).0 == defs@[component@[k] as int].0 && r@[k].1@
                == defs@[component@[k] as int].1@,
{
    let mut r: Vec<(Binder, Core)> = Vec::new();
    let mut k: usize = 0;
    while k < component.len()
        invariant
            k <= component@.len(),
            forall|k: int| 0 <= k < component@.len() ==> component@[k] < defs@.len(),
            r@.len() == k,
            forall|j: int|
                0 <= j < k ==> (#[trigger] r@[j]).0 == defs@[component@[j] as int].0 && r@[j].1@
                    == defs@[component@[j] as int].1@,
        decreases component@.len() - k,
    {
        let a = component[k];
        r.push((defs[a].0.duplicate(), defs[a].1.duplicate()));
        k += 1;
    }
    r
}

impl Engine {
    /// Bind `defs` around `root`, one strongly connected component at a
    /// time: dependencies outside, dependents inside; a component that
    /// refers to itself becomes a recursive group.
    fn nest(
        &self,
        defs: &Vec<(Binder, Core)>,
        edges: &Vec<Vec<usize>>,
        comps: &Vec<Vec<usize>>,
        root: Core,
    ) -> (res: Result<Core, Error>)
        requires
            ordered_graph(defs@, edges@, comp_views(comps@)),
        ensures
            res matches Ok(r) ==> scoped(r@, root@, defs@),
            res matches Err(e) ==> (e is RecursionNormalizationLimit || e is RecursiveValue),
            res_view(res) == nest_from(def_views(defs@), comp_views(comps@), root@, 0),
    {
        let ghost cs = comp_views(comps@);
        let ghost groot = root@;
        let mut body = root;
        let mut q = comps.len();
        while q > 0
            invariant
                q <= comps@.len(),
                cs == comp_views(comps@),
                ordered_graph(defs@, edges@, cs),
                nested(defs@, cs, q as int, groot, body@),
                nest_from(def_views(defs@), cs, groot, q as int) == Ok::<Tm, Error>(body@),
                groot == root@,
            decreases q,
        {
            q -= 1;
            let component = &comps[q];
            proof {
                assert(cs[q as int] == component@);
                assert(component@.len() > 0);
                assert(component@[0] < defs@.len());
            }
            let recursive = component.len() > 1 || has_edge(&edges[component[0]], component[0]);
            let ghost old_body = body@;
            proof {
                let c0 = component@[0];
                if component@.len() == 1 {
                    if edges@[c0 as int]@.contains(c0) {
                        let j = choose|j: int| 0 <= j < edges@[c0 as int]@.len() && edges@[c0 as int]@[j] == c0;
                        assert(edges@[c0 as int]@[j] == c0);
                    }
                    if free_in(defs@[c0 as int].1@, defs@[c0 as int].0.name.unique) {
                        assert(edges@[c0 as int]@.contains(c0));
                    }
                }
                assert(def_views(defs@)[c0 as int] == (defs@[c0 as int].0, defs@[c0 as int].1@));
                assert(recursive == self_named(def_views(defs@), cs[q as int]));
            }
            if recursive {
                proof {
                    assert forall|k: int| 0 <= k < component@.len() implies component@[k] < defs@.len() by {
                        assert(cs[q as int][k] < defs@.len());
                    }
                }
                let group = component_defs(defs, component);
                proof {
                    assert(def_views(group@) =~= comp_defs(def_views(defs@), cs[q as int]));
                }
                let mut budget: usize = 4096;
                match self.recursive_bindings(group, body, &mut budget) {
                    Ok(r) => {
                        proof {
                            lemma_nest_group(defs@, edges@, cs, q as int, group@, groot, old_body, r@);
                        }
                        body = r;
                    },
                    Err(e) => {
                        proof {
                            assert(nest_from(def_views(defs@), cs, groot, q as int + 1) == Ok::<Tm, Error>(old_body));
                            assert(normalize(comp_defs(def_views(defs@), cs[q as int]), old_body, component_budget()).0 == Err::<Tm, Error>(e));
                            assert(nest_from(def_views(defs@), cs, groot, q as int) == Err::<Tm, Error>(e));
                            lemma_nest_err(def_views(defs@), cs, groot, 0, q as int);
                        }
                        return Err(e);
                    },
                }
            } else {
                let a = component[0];
                body = Core::Let {
                    binder: defs[a].0.duplicate(),
                    value: Box::new(defs[a].1.duplicate()),
                    body: Box::new(body),
                };
                proof {
                    lemma_nest_single(defs@, edges@, cs, q as int, groot, old_body, body@);
                }
            }
        }
        proof {
            assert forall|u: u32| free_in(body@, u) implies !def_name(defs@, u) && (free_in(groot, u) || def_free(defs@, u)) by {
                assert(nested_at(defs@, cs, 0, groot, u));
                if def_name(defs@, u) {
                    let d = choose|d: int| 0 <= d < defs@.len() && (#[trigger] defs@[d]).0.name.unique == u;
                    assert(placed(cs, d as usize));
                    let p = choose|p: int| #[trigger] comp_has(cs, p, d as usize);
                    assert(processed(cs, 0, d));
                }
            }
        }
        Ok(body)
    }
}


/// Definitions with the same binders and views of values have the same
/// dependency graphs.
proof fn lemma_ordered_graph_same(
    a: Seq<(Binder, Core)>,
    b: Seq<(Binder, Core)>,
    edges: Seq<Vec<usize>>,
    cs: Seq<Seq<usize>>,
)
    requires
        ordered_graph(a, edges, cs),
        a.len() == b.len(),
        forall|d: int| 0 <= d < a.len() ==> (#[trigger] a[d]).0 == b[d].0 && a[d].1@ == b[d].1@,
    ensures
        ordered_graph(b, edges, cs),
{
    assert forall|x: int, j: int|
        #![trigger edges[x]@[j]]
        0 <= x < edges.len() && 0 <= j < edges[x]@.len() implies free_in(b[x].1@, b[edges[x]@[j] as int].0.name.unique) by {
        assert(free_in(a[x].1@, a[edges[x]@[j] as int].0.name.unique));
        assert(a[x].1@ == b[x].1@);
        assert(a[edges[x]@[j] as int].0 == b[edges[x]@[j] as int].0);
    }
    assert forall|x: int, y: int|
        #![trigger free_in(b[x].1@, b[y].0.name.unique)]
        0 <= x < b.len() && 0 <= y < b.len() && free_in(b[x].1@, b[y].0.name.unique) implies edges[x]@.contains(y as usize) by {
        assert(a[x].1@ == b[x].1@);
        assert(a[y].0 == b[y].0);
        assert(free_in(a[x].1@, a[y].0.name.unique));
    }
}

/// The names that `root` needs through the selected specializations.
pub open spec fn needed_set(specs: Seq<InstanceBody>, sel: Seq<usize>, root: Tm) -> Set<u32> {
    Set::new(|u: u32| needed_name(specs, sel, root, u))
}

/// The specializations that emission binds: with `reach`, only those whose
/// names `root` needs; otherwise all selected ones.
pub open spec fn emitted(specs: Seq<InstanceBody>, sel: Seq<usize>, root: Tm, reach: bool) -> Seq<usize> {
    if reach {
        kept_sel(specs, sel, needed_set(specs, sel, root))
    } else {
        sel
    }
}

/// The definitions that the specializations `sel` stand for.
pub open spec fn emitted_defs(specs: Seq<InstanceBody>, sel: Seq<usize>) -> Seq<(Binder, Core)> {
    Seq::new(sel.len(), |k: int| (specs[sel[k] as int].binder, sel_value(specs, sel, k)->0))
}

/// With `reach`, no selected specialization is left free: the needed ones
/// are bound and the others are not referred to.
proof fn lemma_emit_reach(
    specs: Seq<InstanceBody>,
    sel: Seq<usize>,
    root: Tm,
    n: Set<u32>,
    r: Tm,
)
    requires
        closed_names(specs, sel, root, n),
        forall|k: int|
            0 <= k < kept_sel(specs, sel, n).len() ==> (#[trigger] sel_value(specs, kept_sel(specs, sel, n), k)) is Some,
        scoped(r, root, emitted_defs(specs, kept_sel(specs, sel, n))),
    ensures
        forall|k: int| 0 <= k < sel.len() ==> !free_in(r, #[trigger] sel_name(specs, sel, k)),
{
    let kept = kept_sel(specs, sel, n);
    let ed = emitted_defs(specs, kept);
    lemma_kept_sel(specs, sel, n);
    assert forall|k: int| 0 <= k < sel.len() implies !free_in(r, #[trigger] sel_name(specs, sel, k)) by {
        let u = sel_name(specs, sel, k);
        if free_in(r, u) {
            if n.contains(u) {
                assert(kept.contains(sel[k]));
                let j = choose|j: int| 0 <= j < kept.len() && kept[j] == sel[k];
                assert(ed[j].0.name.unique == u);
                assert(def_name(ed, u));
            } else if free_in(root, u) {
            } else {
                assert(def_free(ed, u));
                let j = choose|j: int| 0 <= j < ed.len() && free_in((#[trigger] ed[j]).1@, u);
                assert(sel.contains(kept[j]));
                let k2 = choose|k2: int| 0 <= k2 < sel.len() && sel[k2] == kept[j];
                assert(sel_value(specs, kept, j) is Some);
                assert(sel_value(specs, sel, k2) == sel_value(specs, kept, j));
                assert(n.contains(sel_name(specs, sel, k2)));
            }
        }
    }
}

impl Engine {
    /// Bind the selected specializations around `root`, dependencies first;
    /// with `reachable_only`, only those that `root` needs.
    fn emit_specs(&self, selected: Vec<usize>, root: Core, reachable_only: bool) -> (res: Result<Core, Error>)
        requires
            forall|k: int| 0 <= k < selected@.len() ==> selected@[k] < self.specs@.len(),
        ensures
            (res matches Err(e) && e is ComptimeAssembly) <==> missing(self.specs@, selected@, root@, reachable_only),
            res matches Err(Error::ComptimeAssembly(m)) ==> m@ == pending_message(reachable_only),
            res matches Ok(r) ==> scoped(
                r@,
                root@,
                emitted_defs(self.specs@, emitted(self.specs@, selected@, root@, reachable_only)),
            ),
            reachable_only ==> (res matches Ok(r) ==> forall|k: int|
                0 <= k < selected@.len() ==> !free_in(r@, #[trigger] sel_name(self.specs@, selected@, k))),
            !missing(self.specs@, selected@, root@, reachable_only) ==> exists|edges: Seq<Vec<usize>>, cs: Seq<Seq<usize>>|
                #[trigger] ordered_graph(
                    emitted_defs(self.specs@, emitted(self.specs@, selected@, root@, reachable_only)),
                    edges,
                    cs,
                ) && res_view(res) == nest_from(
                    def_views(emitted_defs(self.specs@, emitted(self.specs@, selected@, root@, reachable_only))),
                    cs,
                    root@,
                    0,
                ),
    {
        let ghost specs = self.specs@;
        let ghost sel = selected@;
        let ghost groot = root@;
        let ghost mut n: Set<u32> = Set::empty();
        let chosen = if reachable_only {
            match self.needed_names(&selected, &root) {
                Ok(needed) => {
                    let kept = self.retain_needed(&selected, &needed);
                    proof {
                        n = needed@;
                        lemma_kept_sel(specs, sel, n);
                        assert(n =~= needed_set(specs, sel, groot)) by {
                            assert forall|u: u32| n.contains(u) <==> needed_name(specs, sel, groot, u) by {
                                if needed_name(specs, sel, groot, u) {
                                    assert(closed_names(specs, sel, groot, n));
                                }
                            }
                        }
                        assert forall|j: int| 0 <= j < kept@.len() implies (#[trigger] sel_value(specs, kept@, j)) is Some by {
                            assert(sel.contains(kept@[j]));
                            let k = choose|k: int| 0 <= k < sel.len() && sel[k] == kept@[j];
                            if sel_value(specs, sel, k) is None {
                                assert(needed_name(specs, sel, groot, sel_name(specs, sel, k)));
                                assert(missing(specs, sel, groot, true));
                            }
                        }
                        assert forall|k: int| 0 <= k < kept@.len() implies kept@[k] < specs.len() by {
                            assert(sel.contains(kept@[k]));
                        }
                        assert(!missing(specs, kept@, groot, false)) by {
                            if missing(specs, kept@, groot, false) {
                                let k = choose|k: int|
                                    0 <= k < kept@.len() && (#[trigger] sel_value(specs, kept@, k)) is None && (!false
                                        || needed_name(specs, kept@, groot, sel_name(specs, kept@, k)));
                            }
                        }
                    }
                    kept
                },
                Err(e) => {
                    return Err(e);
                },
            }
        } else {
            selected
        };
        assert(chosen@ == emitted(specs, sel, groot, reachable_only));
        let defs = match self.definitions(&chosen, Ghost(groot)) {
            Ok(d) => d,
            Err(e) => {
                return Err(e);
            },
        };
        let _ = defs.len();
        let edges = dependency_edges(&defs);
        let comps = components(&edges);
        let ghost ed = emitted_defs(specs, chosen@);
        proof {
            assert forall|d: int| 0 <= d < defs@.len() implies (#[trigger] defs@[d]).0 == ed[d].0 && defs@[d].1@ == ed[d].1@ by {
                assert(sel_value(specs, chosen@, d) is Some);
            }
            assert(def_views(defs@) =~= def_views(ed));
            lemma_ordered_graph_same(defs@, ed, edges@, comp_views(comps@));
        }
        let r = match self.nest(&defs, &edges, &comps, root) {
            Ok(r) => r,
            Err(e) => {
                proof {
                    if reachable_only {
                        assert(!missing(specs, sel, groot, true));
                    }
                    assert(ordered_graph(ed, edges@, comp_views(comps@)));
                }
                return Err(e);
            },
        };
        proof {
            assert(ordered_graph(ed, edges@, comp_views(comps@)));
            assert forall|d: int| 0 <= d < defs@.len() implies (#[trigger] defs@[d]).0 == ed[d].0 && defs@[d].1@ == ed[d].1@ by {
                assert(sel_value(specs, chosen@, d) is Some);
            }
            lemma_defs_same(defs@, ed);
            assert forall|u: u32| free_in(r@, u) implies !def_name(ed, u) && (free_in(groot, u) || def_free(ed, u)) by {
                assert(def_name(defs@, u) == def_name(ed, u));
                assert(def_free(defs@, u) == def_free(ed, u));
            }
            if reachable_only {
                lemma_emit_reach(specs, sel, groot, n, r@);
            }
        }
        Ok(r)
    }

    /// Emit the specializations of one lexical group around `root`.
    pub fn emit_group(&self, group: usize, root: Core, reachable_only: bool) -> (res: Result<Core, Error>)
        requires
            group < self.groups@.len(),
            forall|k: int|
                0 <= k < self.groups@[group as int].specs@.len() ==> self.groups@[group as int].specs@[k]
                    < self.specs@.len(),
        ensures
            (res matches Err(e) && e is ComptimeAssembly) <==> missing(
                self.specs@,
                self.groups@[group as int].specs@,
                root@,
                reachable_only,
            ),
            res matches Err(Error::ComptimeAssembly(m)) ==> m@ == pending_message(reachable_only),
            res matches Ok(r) ==> scoped(
                r@,
                root@,
                emitted_defs(
                    self.specs@,
                    emitted(self.specs@, self.groups@[group as int].specs@, root@, reachable_only),
                ),
            ),
            reachable_only ==> (res matches Ok(r) ==> forall|k: int|
                0 <= k < self.groups@[group as int].specs@.len() ==> !free_in(
                    r@,
                    #[trigger] sel_name(self.specs@, self.groups@[group as int].specs@, k),
                )),
            !missing(self.specs@, self.groups@[group as int].specs@, root@, reachable_only) ==> exists|
                edges: Seq<Vec<usize>>,
                cs: Seq<Seq<usize>>,
            |
                #[trigger] ordered_graph(
                    emitted_defs(
                        self.specs@,
                        emitted(self.specs@, self.groups@[group as int].specs@, root@, reachable_only),
                    ),
                    edges,
                    cs,
                ) && res_view(res) == nest_from(
                    def_views(
                        emitted_defs(
                            self.specs@,
                            emitted(self.specs@, self.groups@[group as int].specs@, root@, reachable_only),
                        ),
                    ),
                    cs,
                    root@,
                    0,
                ),
    {
        let selected = copy_indices(&self.groups[group].specs);
        self.emit_specs(selected, root, reachable_only)
    }

    /// The next specialization to compile: the first group that is not
    /// drained and the specialization at its cursor. Compiling it is the
    /// front end's work; `complete` records the value.
    pub fn pending(&self) -> (r: Option<(usize, usize)>)
        ensures
            r is None <==> drained(self.groups@),
            r matches Some(p) ==> p.0 < self.groups@.len() && self.groups@[p.0 as int].cursor
                < self.groups@[p.0 as int].specs@.len() && p.1 == self.groups@[p.0 as int].specs@[self.groups@[p.0 as int].cursor as int]
                && forall|h: int| 0 <= h < p.0 ==> (#[trigger] self.groups@[h]).cursor >= self.groups@[h].specs@.len(),
    {
        let mut g: usize = 0;
        while g < self.groups.len()
            invariant
                g <= self.groups@.len(),
                forall|h: int| 0 <= h < g ==> (#[trigger] self.groups@[h]).cursor >= self.groups@[h].specs@.len(),
            decreases self.groups@.len() - g,
        {
            let group = &self.groups[g];
            if group.cursor < group.specs.len() {
                return Some((g, group.specs[group.cursor]));
            }
            g += 1;
        }
        None
    }

    /// Record the compiled value of the specialization at the cursor of
    /// `group` and move the cursor past it.
    pub fn complete(&mut self, group: usize, value: Core)
        requires
            group < old(self).groups@.len(),
            old(self).groups@[group as int].cursor < old(self).groups@[group as int].specs@.len(),
            old(self).groups@[group as int].specs@[old(self).groups@[group as int].cursor as int] < old(self).specs@.len(),
        ensures
            ({
                let g = old(self).groups@[group as int];
                let i = g.specs@[g.cursor as int] as int;
                &&& final(self).groups@.len() == old(self).groups@.len()
                &&& final(self).groups@[group as int].specs@ == g.specs@
                &&& final(self).groups@[group as int].cursor == g.cursor + 1
                &&& forall|h: int| 0 <= h < old(self).groups@.len() && h != group ==> #[trigger] final(self).groups@[h] == old(self).groups@[h]
                &&& final(self).specs@.len() == old(self).specs@.len()
                &&& final(self).specs@[i].binder == old(self).specs@[i].binder
                &&& final(self).specs@[i].value == Some(value)
                &&& forall|k: int| 0 <= k < old(self).specs@.len() && k != i ==> #[trigger] final(self).specs@[k] == old(self).specs@[k]
            }),
    {
        let cursor = self.groups[group].cursor;
        let count = self.groups[group].specs.len();
        proof {
            assert(cursor < count);
        }
        let index = self.groups[group].specs[cursor];
        let specs = copy_indices(&self.groups[group].specs);
        self.groups.set(group, Group { specs, cursor: cursor + 1 });
        let binder = self.specs[index].binder.duplicate();
        self.specs.set(index, InstanceBody { binder, value: Some(value) });
    }

    /// Every specialization that `core` needs, bound around it, so that no
    /// specialization is left free. Every group must be drained first (see
    /// `pending` and `complete`); emission itself leaves the engine as it is.
    pub fn closed_dependencies(&mut self, core: Core) -> (res: Result<Core, Error>)
        requires
            drained(old(self).groups@),
        ensures
            *final(self) == *old(self),
            (res matches Err(e) && e is ComptimeAssembly) <==> missing(
                old(self).specs@,
                all_indices(old(self).specs@.len()),
                core@,
                true,
            ),
            res matches Err(Error::ComptimeAssembly(m)) ==> m@ == pending_message(true),
            res matches Ok(r) ==> scoped(
                r@,
                core@,
                emitted_defs(
                    old(self).specs@,
                    emitted(old(self).specs@, all_indices(old(self).specs@.len()), core@, true),
                ),
            ),
            res matches Ok(r) ==> forall|i: int|
                0 <= i < old(self).specs@.len() ==> !free_in(r@, #[trigger] old(self).specs@[i].binder.name.unique),
            !missing(old(self).specs@, all_indices(old(self).specs@.len()), core@, true) ==> exists|
                edges: Seq<Vec<usize>>,
                cs: Seq<Seq<usize>>,
            |
                #[trigger] ordered_graph(
                    emitted_defs(old(self).specs@, emitted(old(self).specs@, all_indices(old(self).specs@.len()), core@, true)),
                    edges,
                    cs,
                ) && res_view(res) == nest_from(
                    def_views(
                        emitted_defs(old(self).specs@, emitted(old(self).specs@, all_indices(old(self).specs@.len()), core@, true)),
                    ),
                    cs,
                    core@,
                    0,
                ),
    {
        let n = self.specs.len();
        let mut all: Vec<usize> = Vec::new();
        let mut i: usize = 0;
        while i < n
            invariant
                n == self.specs@.len(),
                i <= n,
                all@ == all_indices(i as nat),
            decreases n - i,
        {
            all.push(i);
            i += 1;
            assert(all@ =~= all_indices(i as nat));
        }
        let res = self.emit_specs(all, core, true);
        proof {
            if res is Ok {
                assert forall|i: int| 0 <= i < self.specs@.len() implies !free_in(res->Ok_0@, #[trigger] self.specs@[i].binder.name.unique) by {
                    assert(sel_name(self.specs@, all_indices(n as nat), i) == self.specs@[i].binder.name.unique);
                }
            }
        }
        res
    }
}

/// The indices `0..n` in order.
pub open spec fn all_indices(n: nat) -> Seq<usize> {
    Seq::new(n, |i: int| i as usize)
}

/// A copy of a list of indices.
fn copy_indices(v: &Vec<usize>) -> (r: Vec<usize>)
    ensures
        r@ == v@,
{
    let mut r: Vec<usize> = Vec::new();
    let mut i: usize = 0;
    while i < v.len()
        invariant
            i <= v@.len(),
            r@ == v@.take(i as int),
        decreases v@.len() - i,
    {
        r.push(v[i]);
        i += 1;
        assert(r@ =~= v@.take(i as int));
    }
    assert(v@.take(v@.len() as int) =~= v@);
    r
}

} // verus!
