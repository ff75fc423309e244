//! General properties of the maximum clique size, stated over the clique
//! vocabulary that the solver's contracts use and proved once and for all.

use vstd::prelude::*;
use vstd::relations::injective_on;
use vstd::set_lib::{lemma_len_subset, lemma_map_size};
use crate::graphs::{Graph, in_suffix, is_clique, is_max_clique_size};

verus! {

/// The maximum clique size of a graph is one number: any two values that
/// both satisfy its characterisation agree.
pub proof fn lemma_max_clique_size_unique<T>(g: &Graph<T>, m1: nat, m2: nat)
    requires
        is_max_clique_size(g, m1),
        is_max_clique_size(g, m2),
    ensures
        m1 == m2,
{
    let s1 = choose|s: Set<usize>|
        is_clique(g, s) && in_suffix(s, 0) && s.len() == m1;
    let s2 = choose|s: Set<usize>|
        is_clique(g, s) && in_suffix(s, 0) && s.len() == m2;
    assert(s1.len() <= m2);
    assert(s2.len() <= m1);
}

/// A graph with no vertices has maximum clique size 0.
pub proof fn lemma_boundary_no_vertices<T>(g: &Graph<T>, m: nat)
    requires
        g.n() == 0,
        is_max_clique_size(g, m),
    ensures
        m == 0,
{
    let s = choose|s: Set<usize>|
        is_clique(g, s) && in_suffix(s, 0) && s.len() == m;
    assert forall|x: usize| !s.contains(x) by {
        if s.contains(x) {
            assert(x < g.n());
        }
    }
    assert(s =~= Set::<usize>::empty());
}

/// A graph with exactly one vertex has maximum clique size 1.
pub proof fn lemma_boundary_single_vertex<T>(g: &Graph<T>, m: nat)
    requires
        g.n() == 1,
        is_max_clique_size(g, m),
    ensures
        m == 1,
{
    let s0 = Set::<usize>::empty().insert(0);
    assert(is_clique(g, s0) && in_suffix(s0, 0) && s0.len() == 1);
    assert(m >= 1);
    let s = choose|s: Set<usize>|
        is_clique(g, s) && in_suffix(s, 0) && s.len() == m;
    assert forall|x: usize| #[trigger] s.contains(x) implies s0.contains(x) by {
        assert(x < g.n());
    }
    lemma_len_subset(s, s0);
}

/// A graph with at least one vertex but no edges has maximum clique size 1.
pub proof fn lemma_boundary_edgeless<T>(g: &Graph<T>, m: nat)
    requires
        g.n() >= 1,
        forall|a: usize, b: usize| a < g.n() && b < g.n() ==> !(#[trigger] g.adj(a, b)),
        is_max_clique_size(g, m),
    ensures
        m == 1,
{
    let s0 = Set::<usize>::empty().insert(0);
    assert(is_clique(g, s0) && in_suffix(s0, 0) && s0.len() == 1);
    assert(m >= 1);
    let s = choose|s: Set<usize>|
        is_clique(g, s) && in_suffix(s, 0) && s.len() == m;
    if m >= 2 {
        let a = s.choose();
        assert(s.contains(a));
        let s1 = s.remove(a);
        assert(s1.len() == m - 1);
        let b = s1.choose();
        assert(s1.contains(b));
        assert(s.contains(b) && a != b);
        assert(g.adj(a, b));
        assert(a < g.n() && b < g.n());
        assert(false);
    }
}

/// Two graphs are isomorphic under the index maps `f` and `h`: mutually
/// inverse bijections between the vertex ranges that preserve adjacency.
pub open spec fn isomorphic<T, U>(
    g1: &Graph<T>,
    g2: &Graph<U>,
    f: spec_fn(usize) -> usize,
    h: spec_fn(usize) -> usize,
) -> bool {
    &&& g1.n() == g2.n()
    &&& forall|a: usize| a < g1.n() ==> (#[trigger] f(a)) < g2.n()
    &&& forall|b: usize| b < g2.n() ==> (#[trigger] h(b)) < g1.n()
    &&& forall|a: usize| a < g1.n() ==> h(#[trigger] f(a)) == a
    &&& forall|b: usize| b < g2.n() ==> f(#[trigger] h(b)) == b
    &&& forall|a: usize, b: usize|
        #![trigger g1.adj(a, b)]
        a < g1.n() && b < g1.n() && a != b ==> (g1.adj(a, b) <==> g2.adj(f(a), f(b)))
}

/// A clique maps through an isomorphism to a clique of the same size.
proof fn lemma_iso_clique<T, U>(
    g1: &Graph<T>,
    g2: &Graph<U>,
    f: spec_fn(usize) -> usize,
    h: spec_fn(usize) -> usize,
    s: Set<usize>,
)
    requires
        isomorphic(g1, g2, f, h),
        is_clique(g1, s),
    ensures
        is_clique(g2, s.map(f)),
        s.map(f).len() == s.len(),
{
    let sf = s.map(f);
    assert(injective_on(f, s)) by {
        assert forall|x1: usize, x2: usize|
            s.contains(x1) && s.contains(x2) && #[trigger] f(x1) == #[trigger] f(x2)
            implies x1 == x2 by {
            assert(x1 < g1.n() && x2 < g1.n());
            assert(h(f(x1)) == x1 && h(f(x2)) == x2);
        }
    }
    lemma_map_size(s, sf, f);
    assert forall|p: usize| #[trigger] sf.contains(p) implies p < g2.n() by {
        let x = choose|x: usize| s.contains(x) && p == f(x);
        assert(x < g1.n());
    }
    assert forall|p: usize, q: usize|
        #![trigger sf.contains(p), sf.contains(q)]
        sf.contains(p) && sf.contains(q) && p != q implies g2.adj(p, q) by {
        let x = choose|x: usize| s.contains(x) && p == f(x);
        let y = choose|y: usize| s.contains(y) && q == f(y);
        assert(x != y);
        assert(g1.adj(x, y));
        assert(g2.adj(f(x), f(y)));
    }
}

/// Isomorphic graphs have the same maximum clique size: the answer depends
/// only on the adjacency structure, not on how the graph was put together.
pub proof fn lemma_isomorphic_same_max_clique<T, U>(
    g1: &Graph<T>,
    g2: &Graph<U>,
    f: spec_fn(usize) -> usize,
    h: spec_fn(usize) -> usize,
    m1: nat,
    m2: nat,
)
    requires
        isomorphic(g1, g2, f, h),
        is_max_clique_size(g1, m1),
        is_max_clique_size(g2, m2),
    ensures
        m1 == m2,
{
    assert(isomorphic(g2, g1, h, f)) by {
        assert forall|a: usize, b: usize|
            a < g2.n() && b < g2.n() && a != b implies
            (#[trigger] g2.adj(a, b) <==> g1.adj(h(a), h(b))) by {
            assert(h(a) < g1.n() && h(b) < g1.n());
            assert(f(h(a)) == a && f(h(b)) == b);
            if h(a) == h(b) {
                assert(false);
            }
            assert(g1.adj(h(a), h(b)) <==> g2.adj(f(h(a)), f(h(b))));
        }
    }
    let s1 = choose|s: Set<usize>|
        is_clique(g1, s) && in_suffix(s, 0) && s.len() == m1;
    lemma_iso_clique(g1, g2, f, h, s1);
    assert(in_suffix(s1.map(f), 0));
    assert(s1.map(f).len() <= m2);
    let s2 = choose|s: Set<usize>|
        is_clique(g2, s) && in_suffix(s, 0) && s.len() == m2;
    lemma_iso_clique(g2, g1, h, f, s2);
    assert(in_suffix(s2.map(h), 0));
    assert(s2.map(h).len() <= m1);
}

} // verus!
