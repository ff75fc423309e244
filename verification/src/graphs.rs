//! The graph representation consumed by the solver, the clique vocabulary
//! shared by its contracts, and the builder for complements of generalised
//! Johnson graphs J_{+/-}(n, k, t).

use vstd::prelude::*;
use vstd::arithmetic::div_mod::{lemma_div_denominator, lemma_fundamental_div_mod_converse};
use vstd::arithmetic::power2::{
    lemma2_to64, lemma_pow2_adds, lemma_pow2_pos, lemma_pow2_strictly_increases, pow2,
};
use itertools::Itertools;
use crate::bitset::VertexSet;

verus! {

/// An immutable graph: an ordered vertex list and, per vertex, the set of
/// adjacent vertex indices.
pub struct Graph<T> {
    pub vertices: Vec<T>,
    pub neighbours: Vec<VertexSet>,
}

impl<T> Graph<T> {
    /// The number of vertices.
    pub open spec fn n(&self) -> nat {
        self.vertices@.len()
    }

    /// The neighbour set of vertex `i`, as a mathematical set.
    pub open spec fn nbrs(&self, i: int) -> Set<usize> {
        self.neighbours@[i]@
    }

    /// Vertex `b` is listed as a neighbour of vertex `a`.
    pub open spec fn adj(&self, a: usize, b: usize) -> bool {
        self.nbrs(a as int).contains(b)
    }

    /// What the solver needs of a graph: one neighbour set per vertex, each
    /// finite, irreflexive, within bounds, and symmetric.
    pub open spec fn wf(&self) -> bool {
        &&& self.neighbours@.len() == self.n()
        &&& forall|i: int| 0 <= i < self.n() ==> (#[trigger] self.nbrs(i)).finite()
        &&& forall|i: int| 0 <= i < self.n() ==> !(#[trigger] self.nbrs(i)).contains(i as usize)
        &&& forall|i: int, x: usize|
            0 <= i < self.n() && #[trigger] self.nbrs(i).contains(x) ==> x < self.n()
        &&& forall|a: usize, b: usize|
            a < self.n() && b < self.n() ==> (#[trigger] self.adj(a, b) <==> self.adj(b, a))
    }
}

/// A set of vertex indices of `g` that are pairwise adjacent.
pub open spec fn is_clique<T>(g: &Graph<T>, s: Set<usize>) -> bool {
    &&& s.finite()
    &&& forall|a: usize| #[trigger] s.contains(a) ==> a < g.n()
    &&& forall|a: usize, b: usize|
        #![trigger s.contains(a), s.contains(b)]
        s.contains(a) && s.contains(b) && a != b ==> g.adj(a, b)
}

/// Every element of `s` has index at least `lo`.
pub open spec fn in_suffix(s: Set<usize>, lo: int) -> bool {
    forall|a: usize| #[trigger] s.contains(a) ==> lo <= a
}

/// No clique that lives in the vertex suffix starting at `lo` has more than
/// `m` vertices.
pub open spec fn bounds_suffix_cliques<T>(g: &Graph<T>, lo: int, m: nat) -> bool {
    forall|s: Set<usize>| #[trigger] is_clique(g, s) && in_suffix(s, lo) ==> s.len() <= m
}

/// Some clique of exactly `m` vertices lives in the suffix starting at `lo`.
pub open spec fn has_suffix_clique<T>(g: &Graph<T>, lo: int, m: nat) -> bool {
    exists|s: Set<usize>| #[trigger] is_clique(g, s) && in_suffix(s, lo) && s.len() == m
}

/// `m` is the exact maximum clique size among vertices with index `>= lo`.
pub open spec fn is_suffix_max_clique_size<T>(g: &Graph<T>, lo: int, m: nat) -> bool {
    &&& bounds_suffix_cliques(g, lo, m)
    &&& has_suffix_clique(g, lo, m)
}

/// `m` is the exact maximum clique size of the whole graph.
pub open spec fn is_max_clique_size<T>(g: &Graph<T>, m: nat) -> bool {
    is_suffix_max_clique_size(g, 0, m)
}

/// The inner product of two sign vectors, over their first `m` entries.
pub open spec fn dot_prefix(a: Seq<i8>, b: Seq<i8>, m: int) -> int
    decreases m,
{
    if m <= 0 {
        0
    } else {
        dot_prefix(a, b, m - 1) + a[m - 1] * b[m - 1]
    }
}

/// The inner product of two sign vectors of equal length.
pub open spec fn dot(a: Seq<i8>, b: Seq<i8>) -> int {
    dot_prefix(a, b, a.len() as int)
}

proof fn lemma_dot_prefix_comm(a: Seq<i8>, b: Seq<i8>, m: int)
    ensures
        dot_prefix(a, b, m) == dot_prefix(b, a, m),
    decreases m,
{
    if m > 0 {
        lemma_dot_prefix_comm(a, b, m - 1);
    }
}

/// The inner product does not depend on the order of its arguments.
pub proof fn lemma_dot_comm(a: Seq<i8>, b: Seq<i8>)
    requires
        a.len() == b.len(),
    ensures
        dot(a, b) == dot(b, a),
{
    lemma_dot_prefix_comm(a, b, a.len() as int);
}

/// Computes the inner product of two equally long `i8` vectors.
#[verifier::loop_isolation(false)]
pub fn dot_product(a: &Vec<i8>, b: &Vec<i8>) -> (r: i64)
    requires
        a@.len() == b@.len(),
        a@.len() <= 0x1000_0000,
    ensures
        r == dot(a@, b@),
{
    let mut r: i64 = 0;
    let mut j: usize = 0;
    while j < a.len()
        invariant
            j <= a@.len(),
            r == dot_prefix(a@, b@, j as int),
            -16384 * (j as int) <= r <= 16384 * (j as int),
        decreases a@.len() - j,
    {
        let x: i64 = a[j] as i64;
        let y: i64 = b[j] as i64;
        proof {
            assert(-16384 <= x * y <= 16384) by (nonlinear_arith)
                requires
                    -128 <= x <= 127,
                    -128 <= y <= 127,
            ;
        }
        let term: i64 = x * y;
        r = r + term;
        j = j + 1;
    }
    r
}

} // verus!

verus! {

/// How many `k`-element subsets an `n`-element set has.
pub open spec fn spec_binomial(n: nat, k: nat) -> nat
    decreases n, k,
{
    if k == 0 {
        1
    } else if n == 0 {
        0
    } else {
        spec_binomial((n - 1) as nat, (k - 1) as nat) + spec_binomial((n - 1) as nat, k)
    }
}

/// The list of `k`-element subsets of `{0, .., n-1}` that itertools'
/// `combinations` adaptor yields over the range `0..n`, in the order it
/// produces them.
pub uninterp spec fn combinations_seq(n: usize, k: usize) -> Seq<Seq<usize>>;

/// Relies on itertools' `combinations` over the range `0..n`: it yields one
/// vector per `k`-element subset of the range, so `C(n, k)` of them, each a
/// strictly increasing list of `k` values below `n`.
#[verifier::external_body]
fn k_subsets(n: usize, k: usize) -> (r: Vec<Vec<usize>>)
    ensures
        r@.map_values(|c: Vec<usize>| c@) == combinations_seq(n, k),
        r@.len() == spec_binomial(n as nat, k as nat),
        forall|ci: int| 0 <= ci < r@.len() ==> (#[trigger] r@[ci])@.len() == k,
        forall|ci: int, j: int|
            0 <= ci < r@.len() && 0 <= j < k ==> (#[trigger] r@[ci]@[j]) < n,
        forall|ci: int, j1: int, j2: int|
            #![trigger r@[ci]@[j1], r@[ci]@[j2]]
            0 <= ci < r@.len() && 0 <= j1 < j2 < k ==> r@[ci]@[j1] < r@[ci]@[j2],
{
    (0..n).combinations(k).collect()
}

/// The sign given by bit `b` of `mask`: +1 for a zero bit, -1 for a one.
pub open spec fn sign_at(mask: nat, b: nat) -> i8 {
    if (mask / pow2(b)) % 2 == 0 {
        1i8
    } else {
        -1i8
    }
}

/// The sign vector over `n` positions after the first `b` support positions
/// of `combo` have received their signs from `mask`.
pub open spec fn signed_vec(combo: Seq<usize>, mask: nat, n: nat, b: int) -> Seq<i8>
    decreases b,
{
    if b <= 0 {
        Seq::new(n, |p: int| 0i8)
    } else {
        signed_vec(combo, mask, n, b - 1).update(
            combo[b - 1] as int,
            sign_at(mask, (b - 1) as nat),
        )
    }
}

/// The sign vector with support `combo` and signs drawn from the bits of
/// `mask`.
pub open spec fn signed_support(combo: Seq<usize>, mask: nat, n: nat) -> Seq<i8> {
    signed_vec(combo, mask, n, combo.len() as int)
}

/// Vertex `idx` of the generalised Johnson construction: its support is
/// combination number `idx / 2^k`, its signs are the bits of `idx % 2^k`.
pub open spec fn johnson_vertex(combos: Seq<Seq<usize>>, k: nat, n: nat, idx: int) -> Seq<i8> {
    signed_support(combos[idx / pow2(k) as int], (idx % pow2(k) as int) as nat, n)
}

/// The mathematical views of a list of vertex vectors.
pub open spec fn vertex_views(vs: Seq<Vec<i8>>) -> Seq<Seq<i8>> {
    vs.map_values(|v: Vec<i8>| v@)
}

/// Vertex `idx` is excluded because it neighbours a fixed vertex: its inner
/// product with some fixed vertex meets the threshold.
pub open spec fn spec_dropped(vs: Seq<Seq<i8>>, fixed: Seq<usize>, t: int, idx: int) -> bool {
    exists|f: int| 0 <= f < fixed.len() && dot(vs[idx], vs[#[trigger] fixed[f] as int]) == t
}

/// The adjacency rule of the built graph: two distinct kept vertices whose
/// inner product misses the threshold.
pub open spec fn johnson_adj(vs: Seq<Seq<i8>>, fixed: Seq<usize>, t: int, a: int, x: usize) -> bool {
    &&& (x as int) < vs.len()
    &&& a != x as int
    &&& !spec_dropped(vs, fixed, t, a)
    &&& !spec_dropped(vs, fixed, t, x as int)
    &&& dot(vs[a], vs[x as int]) != t
}

proof fn lemma_signed_vec_len(combo: Seq<usize>, mask: nat, n: nat, b: int)
    requires
        forall|j: int| 0 <= j < b ==> (#[trigger] combo[j]) < n,
    ensures
        signed_vec(combo, mask, n, b).len() == n,
    decreases b,
{
    if b > 0 {
        lemma_signed_vec_len(combo, mask, n, b - 1);
    }
}

/// Computes 2^k.
#[verifier::loop_isolation(false)]
fn pow2_u64(k: usize) -> (r: u64)
    requires
        k < 64,
    ensures
        r == pow2(k as nat),
{
    let mut r: u64 = 1;
    let mut j: usize = 0;
    proof {
        lemma2_to64();
    }
    while j < k
        invariant
            j <= k,
            r == pow2(j as nat),
        decreases k - j,
    {
        proof {
            lemma_pow2_adds(j as nat, 1);
            lemma2_to64();
            lemma_pow2_strictly_increases((j + 1) as nat, 64);
            vstd::arithmetic::power2::lemma2_to64_rest();
        }
        r = r * 2;
        j = j + 1;
    }
    r
}

} // verus!

verus! {

/// Builds the complement of the generalised Johnson graph J_{+/-}(n, k, t).
///
/// Vertices are the signed characteristic vectors of the `k`-element
/// subsets of an `n`-element ground set; two distinct vertices are adjacent
/// exactly when their inner product differs from `t`. Vertices adjacent to
/// one of the given fixed vertices (inner product equal to `t`) are kept but
/// isolated: all their edges are excluded before the search.
#[verifier::loop_isolation(false)]
pub fn build_johnson_graph_complement(
    n: usize,
    k: usize,
    t: i32,
    fixed_vertices: Vec<usize>,
) -> (g: Graph<Vec<i8>>)
    requires
        k < 64,
        n <= 0x1000_0000,
        forall|f: int|
            0 <= f < fixed_vertices@.len()
                ==> (#[trigger] fixed_vertices@[f] as nat)
                    < spec_binomial(n as nat, k as nat) * pow2(k as nat),
    ensures
        g.wf(),
        g.n() == spec_binomial(n as nat, k as nat) * pow2(k as nat),
        forall|idx: int|
            0 <= idx < g.n() ==> (#[trigger] g.vertices@[idx])@
                == johnson_vertex(combinations_seq(n, k), k as nat, n as nat, idx),
        forall|a: usize, b: usize|
            a < g.n() && b < g.n() ==> (#[trigger] g.adj(a, b) <==> (a != b
                && !spec_dropped(vertex_views(g.vertices@), fixed_vertices@, t as int, a as int)
                && !spec_dropped(vertex_views(g.vertices@), fixed_vertices@, t as int, b as int)
                && dot(g.vertices@[a as int]@, g.vertices@[b as int]@) != t as int)),
{
    let supports: Vec<Vec<usize>> = k_subsets(n, k);
    let two_k: u64 = pow2_u64(k);
    let ghost combos: Seq<Seq<usize>> = combinations_seq(n, k);
    let ghost p2k: nat = pow2(k as nat);
    proof {
        lemma_pow2_pos(k as nat);
    }

    let mut vertices: Vec<Vec<i8>> = Vec::new();
    let mut si: usize = 0;
    while si < supports.len()
        invariant
            si <= supports@.len(),
            vertices@.len() == si * p2k,
            forall|idx: int|
                0 <= idx < vertices@.len() ==> (#[trigger] vertices@[idx])@
                    == johnson_vertex(combos, k as nat, n as nat, idx),
            forall|idx: int|
                0 <= idx < vertices@.len() ==> (#[trigger] vertices@[idx])@.len() == n,
        decreases supports@.len() - si,
    {
        let combo: &Vec<usize> = &supports[si];
        let mut cm: u64 = 0;
        while cm < two_k
            invariant
                cm <= two_k,
                vertices@.len() == si * p2k + cm,
                forall|idx: int|
                    0 <= idx < vertices@.len() ==> (#[trigger] vertices@[idx])@
                        == johnson_vertex(combos, k as nat, n as nat, idx),
                forall|idx: int|
                    0 <= idx < vertices@.len() ==> (#[trigger] vertices@[idx])@.len() == n,
            decreases two_k - cm,
        {
            let mut vx: Vec<i8> = Vec::new();
            while vx.len() < n
                invariant
                    vx@.len() <= n,
                    forall|p: int| 0 <= p < vx@.len() ==> vx@[p] == 0i8,
                decreases n - vx@.len(),
            {
                vx.push(0);
            }
            proof {
                assert(vx@ =~= signed_vec(combo@, cm as nat, n as nat, 0));
            }

            let mut b: usize = 0;
            let mut m: u64 = cm;
            proof {
                lemma2_to64();
            }
            while b < combo.len()
                invariant
                    b <= combo@.len(),
                    m == (cm as nat) / pow2(b as nat),
                    vx@ == signed_vec(combo@, cm as nat, n as nat, b as int),
                    vx@.len() == n,
                decreases combo@.len() - b,
            {
                let pos: usize = combo[b];
                let s: i8 = if m % 2 == 0 {
                    1
                } else {
                    -1
                };
                proof {
                    assert(s == sign_at(cm as nat, b as nat));
                    lemma_pow2_pos(b as nat);
                    lemma_div_denominator(cm as int, pow2(b as nat) as int, 2);
                    lemma_pow2_adds(b as nat, 1);
                    lemma2_to64();
                }
                vx.set(pos, s);
                m = m / 2;
                b = b + 1;
            }

            vertices.push(vx);
            proof {
                let idx: int = vertices@.len() - 1;
                assert(idx == si * p2k + cm);
                lemma_fundamental_div_mod_converse(idx, p2k as int, si as int, cm as int);
                assert(combos[si as int] == supports@[si as int]@);
                assert(vertices@[idx]@ == johnson_vertex(combos, k as nat, n as nat, idx));
            }
            cm = cm + 1;
        }
        si = si + 1;
        proof {
            assert((si - 1) * p2k + p2k == si * p2k) by (nonlinear_arith);
        }
    }

    let nv: usize = vertices.len();
    let ghost vviews: Seq<Seq<i8>> = vertex_views(vertices@);
    proof {
        assert(nv == spec_binomial(n as nat, k as nat) * p2k);
        assert(forall|idx: int| 0 <= idx < nv ==> vviews[idx] == (#[trigger] vertices@[idx])@);
    }

    let mut dropped: Vec<bool> = Vec::new();
    let mut idx: usize = 0;
    while idx < nv
        invariant
            idx <= nv,
            dropped@.len() == idx,
            forall|q: int|
                0 <= q < idx ==> #[trigger] dropped@[q]
                    == spec_dropped(vviews, fixed_vertices@, t as int, q),
        decreases nv - idx,
    {
        let mut d: bool = false;
        let mut f: usize = 0;
        while f < fixed_vertices.len()
            invariant
                f <= fixed_vertices@.len(),
                d == exists|q: int|
                    0 <= q < f && dot(vviews[idx as int], vviews[#[trigger] fixed_vertices@[q] as int])
                        == t as int,
            decreases fixed_vertices@.len() - f,
        {
            let fv: usize = fixed_vertices[f];
            let dp: i64 = dot_product(&vertices[idx], &vertices[fv]);
            if dp == t as i64 {
                d = true;
                proof {
                    assert(dot(vviews[idx as int], vviews[fixed_vertices@[f as int] as int])
                        == t as int);
                }
            }
            f = f + 1;
        }
        proof {
            assert(d == spec_dropped(vviews, fixed_vertices@, t as int, idx as int));
        }
        dropped.push(d);
        idx = idx + 1;
    }

    let mut neighbours: Vec<VertexSet> = Vec::new();
    let mut i1: usize = 0;
    while i1 < nv
        invariant
            i1 <= nv,
            neighbours@.len() == i1,
            forall|a: int| 0 <= a < i1 ==> (#[trigger] neighbours@[a]@).finite(),
            forall|a: int, x: usize|
                #![trigger neighbours@[a]@.contains(x)]
                0 <= a < i1 ==> (neighbours@[a]@.contains(x)
                    <==> johnson_adj(vviews, fixed_vertices@, t as int, a, x)),
        decreases nv - i1,
    {
        let mut nb: VertexSet = VertexSet::new();
        let d1: bool = dropped[i1];
        if !d1 {
            let mut i2: usize = 0;
            while i2 < nv
                invariant
                    i2 <= nv,
                    nb@.finite(),
                    forall|x: usize|
                        #![trigger nb@.contains(x)]
                        nb@.contains(x) <==> ((x as int) < i2
                            && johnson_adj(vviews, fixed_vertices@, t as int, i1 as int, x)),
                decreases nv - i2,
            {
                if i1 != i2 {
                    let d2: bool = dropped[i2];
                    if !d2 {
                        let dp: i64 = dot_product(&vertices[i1], &vertices[i2]);
                        if dp != t as i64 {
                            nb.insert(i2);
                        }
                    }
                }
                i2 = i2 + 1;
            }
        }
        neighbours.push(nb);
        i1 = i1 + 1;
    }

    let g = Graph { vertices, neighbours };
    proof {
        assert(g.n() == nv);
        assert forall|a: usize, b: usize| a < nv && b < nv implies
            (#[trigger] g.adj(a, b) <==> johnson_adj(vviews, fixed_vertices@, t as int, a as int, b)) by {
        }
        assert forall|a: usize, b: usize| a < nv && b < nv implies
            (g.adj(a, b) <==> g.adj(b, a)) by {
            lemma_dot_comm(vviews[a as int], vviews[b as int]);
        }
        assert(g.wf());
    }
    g
}

} // verus!
