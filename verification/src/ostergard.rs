//! The exact maximum-clique solver: Östergård's branch and bound over
//! bitset-encoded candidate sets, pruned by a monotone upper-bound table
//! indexed by vertex suffix.

use vstd::prelude::*;
use vstd::set_lib::{lemma_len_subset, lemma_len_union};
use crate::bitset::VertexSet;
use crate::graphs::{
    Graph, is_clique, in_suffix, bounds_suffix_cliques, has_suffix_clique,
    is_suffix_max_clique_size, is_max_clique_size,
};

verus! {

/// Computes the exact maximum clique size of a graph by branch and bound.
pub struct Ostergard<'a, T> {
    graph: &'a Graph<T>,
    pub max_cliques: Vec<VertexSet>,
    pub max_clique_size: usize,
    max_clique_size_on_suffix: Vec<usize>,
}

impl<'a, T> Ostergard<'a, T> {
    /// The graph being searched.
    pub closed spec fn g(&self) -> &'a Graph<T> {
        self.graph
    }

    /// The suffix bound table: entry `i` is the best clique size found among
    /// vertices with index `>= i`.
    pub closed spec fn bounds_seq(&self) -> Seq<usize> {
        self.max_clique_size_on_suffix@
    }

    /// The best clique size found so far.
    pub closed spec fn best_so_far(&self) -> usize {
        self.max_clique_size
    }

    /// Binds a solver to an existing graph; no computation is performed.
    pub fn new(graph: &'a Graph<T>) -> (r: Ostergard<'a, T>)
        ensures
            r.g() == graph,
            r.best_so_far() == 0,
            r.bounds_seq().len() == graph.n(),
            forall|j: int| 0 <= j < graph.n() ==> r.bounds_seq()[j] == 0,
    {
        let n: usize = graph.vertices.len();
        let mut table: Vec<usize> = Vec::new();
        while table.len() < n
            invariant
                table@.len() <= n,
                forall|j: int| 0 <= j < table@.len() ==> table@[j] == 0,
            decreases n - table@.len(),
        {
            table.push(0);
        }
        Ostergard {
            graph,
            max_clique_size_on_suffix: table,
            max_cliques: Vec::new(),
            max_clique_size: 0,
        }
    }

    /// Read access to the suffix bound table.
    pub fn suffix_bounds(&self) -> (r: &Vec<usize>)
        ensures
            r@ == self.bounds_seq(),
    {
        &self.max_clique_size_on_suffix
    }

    /// What the recursive search assumes of the clique in progress and the
    /// candidate set: the clique is a clique, the candidates are finite,
    /// in bounds, disjoint from the clique, adjacent to all its members,
    /// and every candidate's suffix bound is already final and admissible.
    pub open spec fn search_pre(&self, clique: Set<usize>, cands: Set<usize>) -> bool {
        &&& self.g().wf()
        &&& self.bounds_seq().len() == self.g().n()
        &&& is_clique(self.g(), clique)
        &&& cands.finite()
        &&& forall|x: usize| #[trigger] cands.contains(x) ==> x < self.g().n()
        &&& forall|x: usize| #[trigger] cands.contains(x) ==> !clique.contains(x)
        &&& forall|x: usize, v: usize|
            #![trigger cands.contains(x), clique.contains(v)]
            cands.contains(x) && clique.contains(v) ==> self.g().adj(x, v)
        &&& forall|x: usize| #[trigger] cands.contains(x)
            ==> bounds_suffix_cliques(self.g(), x as int, self.bounds_seq()[x as int] as nat)
    }

    /// A clique that extends `clique` inside `clique + cands` and beats the
    /// best size found so far.
    pub open spec fn improving_extension(
        &self,
        clique: Set<usize>,
        cands: Set<usize>,
        s: Set<usize>,
    ) -> bool {
        &&& is_clique(self.g(), s)
        &&& clique <= s
        &&& s <= clique + cands
        &&& s.len() > self.best_so_far()
    }

    /// Runs the full search, right to left over the vertex indices. On
    /// return `max_clique_size` is the exact maximum clique size of the
    /// graph, and every suffix table entry is the exact maximum clique size
    /// of its vertex suffix. A solver instance is single use: it starts from
    /// the freshly constructed state.
    #[verifier::loop_isolation(false)]
    pub fn compute(&mut self)
        requires
            old(self).g().wf(),
            old(self).best_so_far() == 0,
            old(self).bounds_seq().len() == old(self).g().n(),
        ensures
            final(self).g() == old(self).g(),
            is_max_clique_size(old(self).g(), final(self).best_so_far() as nat),
            final(self).best_so_far() <= old(self).g().n(),
            old(self).g().n() == 0 ==> final(self).best_so_far() == 0,
            old(self).g().n() >= 1 ==> final(self).best_so_far() >= 1,
            final(self).bounds_seq().len() == old(self).g().n(),
            forall|j: int|
                0 <= j < old(self).g().n()
                    ==> is_suffix_max_clique_size(
                    old(self).g(),
                    j,
                    #[trigger] final(self).bounds_seq()[j] as nat,
                ),
            forall|j: int|
                0 <= j && j + 1 < old(self).g().n()
                    ==> final(self).bounds_seq()[j] >= #[trigger] final(self).bounds_seq()[j + 1],
            old(self).g().n() >= 1 ==> final(self).best_so_far() == final(self).bounds_seq()[0],
    {
        let n: usize = self.graph.vertices.len();
        let ghost gr = self.g();
        let mut i: usize = n;
        while i > 0
            invariant
                i <= n,
                n == gr.n(),
                self.g() == gr,
                self.bounds_seq().len() == n,
                self.max_clique_size as int <= n - i,
                i < n ==> self.max_clique_size >= 1,
                i < n ==> self.max_clique_size == self.bounds_seq()[i as int],
                i == n ==> self.max_clique_size == 0,
                forall|j: int|
                    i <= j < n
                        ==> is_suffix_max_clique_size(
                        gr,
                        j,
                        #[trigger] self.bounds_seq()[j] as nat,
                    ),
                forall|j: int|
                    i <= j && j + 1 < n
                        ==> self.bounds_seq()[j] >= #[trigger] self.bounds_seq()[j + 1],
            decreases i,
        {
            i = i - 1;

            let mut clique = VertexSet::new();
            clique.insert(i);
            let ghost cl1: Set<usize> = clique@;

            let mut cands = VertexSet::new();
            let mut j: usize = i;
            while j < n
                invariant
                    i <= j <= n,
                    cands@.finite(),
                    forall|x: usize| #[trigger]
                        cands@.contains(x) ==> i <= x && x < j && gr.nbrs(i as int).contains(x),
                    forall|x: usize|
                        i <= x && x < j && #[trigger] gr.nbrs(i as int).contains(x)
                            ==> cands@.contains(x),
                decreases n - j,
            {
                if self.graph.neighbours[i].contains(j) {
                    cands.insert(j);
                }
                j = j + 1;
            }
            let ghost cd: Set<usize> = cands@;

            proof {
                assert(is_clique(gr, cl1));
                assert forall|x: usize| #[trigger] cd.contains(x) implies
                    x < n && x != i && i + 1 <= x by {
                    assert(gr.nbrs(i as int).contains(x));
                }
                assert forall|x: usize, v: usize|
                    #![trigger cd.contains(x), cl1.contains(v)]
                    cd.contains(x) && cl1.contains(v) implies gr.adj(x, v) by {
                    assert(v == i);
                    assert(gr.adj(i, x));
                }
                assert(self.search_pre(cl1, cd));
            }

            let found: bool = self.ostergard(&mut clique, cands);
            let ghost m0: usize = self.max_clique_size;
            let ghost nm: nat = if found {
                (m0 + 1) as nat
            } else {
                m0 as nat
            };

            proof {
                // No clique inside the suffix starting at i can have more
                // than nm vertices.
                assert forall|s: Set<usize>| is_clique(gr, s) && in_suffix(s, i as int)
                    implies s.len() <= nm by {
                    if s.contains(i) {
                        let s1 = s.remove(i);
                        assert(is_clique(gr, s1));
                        assert(in_suffix(s1, i as int + 1));
                        if i + 1 < n {
                            assert(is_suffix_max_clique_size(
                                gr,
                                i as int + 1,
                                self.bounds_seq()[i as int + 1] as nat,
                            ));
                            assert(s1.len() <= m0);
                        } else {
                            assert forall|x: usize| !s1.contains(x) by {
                                if s1.contains(x) {
                                    assert(x < n && i as int + 1 <= x);
                                }
                            }
                            assert(s1 =~= Set::<usize>::empty());
                            assert(s1.len() <= m0);
                        }
                        assert(s.len() == s1.len() + 1);
                        if !found {
                            // Such a clique would have been an improving
                            // extension of {i} within the candidates.
                            assert(cl1 <= s);
                            assert forall|x: usize| s.contains(x) implies
                                (cl1 + cd).contains(x) by {
                                if x != i {
                                    assert(gr.adj(i, x));
                                    assert(i <= x && x < n);
                                    assert(cd.contains(x));
                                }
                            }
                            assert(s <= cl1 + cd);
                            assert(!self.improving_extension(cl1, cd, s));
                            assert(s.len() <= m0);
                        }
                    } else {
                        assert(in_suffix(s, i as int + 1));
                        if i + 1 < n {
                            assert(is_suffix_max_clique_size(
                                gr,
                                i as int + 1,
                                self.bounds_seq()[i as int + 1] as nat,
                            ));
                            assert(s.len() <= m0);
                        } else {
                            assert forall|x: usize| !s.contains(x) by {
                                if s.contains(x) {
                                    assert(x < n && i as int + 1 <= x);
                                }
                            }
                            assert(s =~= Set::<usize>::empty());
                        }
                    }
                }
                assert(bounds_suffix_cliques(gr, i as int, nm));

                // Some clique of exactly nm vertices lives in the suffix.
                if found {
                    let s = choose|s: Set<usize>| self.improving_extension(cl1, cd, s);
                    assert(s.contains(i));
                    assert forall|x: usize| #[trigger] s.contains(x) implies i <= x by {
                        assert((cl1 + cd).contains(x));
                    }
                    assert(in_suffix(s, i as int));
                    assert(s.len() <= nm);
                    assert(s.len() > m0);
                    assert(is_clique(gr, s) && in_suffix(s, i as int) && s.len() == nm);
                    assert(has_suffix_clique(gr, i as int, nm));
                } else {
                    assert(cl1 <= cl1 + cd);
                    assert(!self.improving_extension(cl1, cd, cl1));
                    assert(cl1.len() == 1);
                    assert(m0 >= 1);
                    assert(i + 1 < n);
                    assert(has_suffix_clique(
                        gr,
                        i as int + 1,
                        self.bounds_seq()[i as int + 1] as nat,
                    ));
                    let s1 = choose|s: Set<usize>|
                        is_clique(gr, s) && in_suffix(s, i as int + 1) && s.len()
                            == self.bounds_seq()[i as int + 1] as nat;
                    assert(in_suffix(s1, i as int));
                    assert(is_clique(gr, s1) && in_suffix(s1, i as int) && s1.len() == nm);
                    assert(has_suffix_clique(gr, i as int, nm));
                }
                assert(is_suffix_max_clique_size(gr, i as int, nm));
                assert(nm >= 1);
            }

            if found {
                self.max_clique_size = self.max_clique_size + 1;
            }
            let m: usize = self.max_clique_size;
            self.max_clique_size_on_suffix.set(i, m);
            proof {
                assert(m as nat == nm);
                assert(self.bounds_seq()[i as int] == m);
                assert forall|j2: int| i <= j2 < n implies is_suffix_max_clique_size(
                    gr,
                    j2,
                    #[trigger] self.bounds_seq()[j2] as nat,
                ) by {
                    if j2 == i {
                        assert(self.bounds_seq()[j2] as nat == nm);
                    }
                }
            }
        }

        proof {
            if n == 0 {
                let s0 = Set::<usize>::empty();
                assert(is_clique(gr, s0) && in_suffix(s0, 0) && s0.len() == 0);
                assert(has_suffix_clique(gr, 0, 0));
                assert forall|s: Set<usize>| is_clique(gr, s) && in_suffix(s, 0)
                    implies s.len() <= 0 by {
                    assert forall|x: usize| !s.contains(x) by {
                        if s.contains(x) {
                            assert(x < n);
                        }
                    }
                    assert(s =~= Set::<usize>::empty());
                }
                assert(is_max_clique_size(gr, self.max_clique_size as nat));
            } else {
                assert(is_suffix_max_clique_size(gr, 0, self.bounds_seq()[0] as nat));
                assert(is_max_clique_size(gr, self.max_clique_size as nat));
            }
        }
    }

    /// The recursive search: reports whether some clique extending `clique`
    /// within `candidates` is strictly larger than the current best, leaving
    /// the clique in progress as it found it.
    #[verifier::loop_isolation(false)]
    fn ostergard(&self, clique: &mut VertexSet, candidates: VertexSet) -> (found: bool)
        requires
            self.search_pre(old(clique)@, candidates@),
        ensures
            final(clique)@ == old(clique)@,
            found ==> exists|s: Set<usize>|
                self.improving_extension(old(clique)@, candidates@, s),
            !found ==> forall|s: Set<usize>|
                !self.improving_extension(old(clique)@, candidates@, s),
        decreases candidates@.len(),
    {
        let ghost cl0: Set<usize> = clique@;
        let ghost cd0: Set<usize> = candidates@;

        let mut empty: bool = candidates.is_empty();
        if empty {
            let cl_size: usize = clique.count();
            if cl_size > self.max_clique_size {
                proof {
                    assert(cl0 <= cl0 + cd0);
                    assert(self.improving_extension(cl0, cd0, cl0));
                }
                return true;
            }
            proof {
                assert forall|s: Set<usize>| !self.improving_extension(cl0, cd0, s) by {
                    if self.improving_extension(cl0, cd0, s) {
                        assert(cl0 + cd0 =~= cl0);
                        assert(s =~= cl0);
                    }
                }
            }
            return false;
        }

        let mut candidates = candidates;
        while !empty
            invariant
                clique@ == cl0,
                empty == candidates@.is_empty(),
                candidates@.finite(),
                candidates@ <= cd0,
                forall|s: Set<usize>|
                    self.improving_extension(cl0, cd0, s) ==> s <= cl0 + candidates@,
                candidates@ == cd0 || (cl0.len() as int) < self.max_clique_size as int,
            decreases candidates@.len(),
        {
            let cl_size: usize = clique.count();
            let cd_size: usize = candidates.count();

            // Pruning on size: clique.len() + candidates.len() <= max_clique_size.
            if cd_size <= self.max_clique_size && cl_size <= self.max_clique_size - cd_size {
                proof {
                    lemma_len_union(cl0, candidates@);
                    assert forall|s: Set<usize>| !self.improving_extension(cl0, cd0, s) by {
                        if self.improving_extension(cl0, cd0, s) {
                            lemma_len_subset(s, cl0 + candidates@);
                        }
                    }
                }
                return false;
            }

            let current: usize = candidates.min_elem();
            let bound: usize = self.max_clique_size_on_suffix[current];

            // Pruning on the suffix bound: clique.len() + bound <= max_clique_size.
            if bound <= self.max_clique_size && cl_size <= self.max_clique_size - bound {
                proof {
                    assert forall|s: Set<usize>| !self.improving_extension(cl0, cd0, s) by {
                        if self.improving_extension(cl0, cd0, s) {
                            let s2 = s.difference(cl0);
                            assert(is_clique(self.g(), s2));
                            assert(in_suffix(s2, current as int));
                            assert(s2.len() <= bound);
                            assert(s <= cl0 + s2);
                            lemma_len_union(cl0, s2);
                            lemma_len_subset(s, cl0 + s2);
                        }
                    }
                }
                return false;
            }

            let ghost cands_before: Set<usize> = candidates@;
            candidates.remove(current);
            let next_candidates: VertexSet =
                candidates.intersection(&self.graph.neighbours[current]);
            clique.insert(current);
            let ghost cl1: Set<usize> = clique@;
            let ghost next0: Set<usize> = next_candidates@;

            proof {
                // The enlarged clique is again a clique.
                assert forall|a: usize, b: usize|
                    #![trigger cl1.contains(a), cl1.contains(b)]
                    cl1.contains(a) && cl1.contains(b) && a != b implies self.g().adj(a, b) by {
                    if a == current {
                        assert(self.g().adj(b, current));
                    } else if b == current {
                        assert(self.g().adj(a, current));
                    }
                }
                assert(is_clique(self.g(), cl1));
                // The recursive call's candidate set satisfies the search
                // preconditions and is strictly smaller than this one's.
                assert forall|x: usize, v: usize|
                    #![trigger next0.contains(x), cl1.contains(v)]
                    next0.contains(x) && cl1.contains(v) implies self.g().adj(x, v) by {
                    if v == current {
                        assert(self.g().adj(current, x));
                    }
                }
                assert(self.search_pre(cl1, next0));
                assert(next0 <= cd0.remove(current));
                lemma_len_subset(next0, cd0.remove(current));
            }

            let found: bool = self.ostergard(clique, next_candidates);
            clique.remove(current);
            proof {
                assert(clique@ =~= cl0);
            }

            if found {
                proof {
                    let s = choose|s: Set<usize>| self.improving_extension(cl1, next0, s);
                    assert(cl0 <= s);
                    assert(s <= cl0 + cd0);
                    assert(self.improving_extension(cl0, cd0, s));
                }
                return true;
            }

            proof {
                // The abandoned branch rules out every improving clique that
                // uses `current`, so such cliques stay within what is left.
                assert forall|s: Set<usize>|
                    self.improving_extension(cl0, cd0, s) implies s <= cl0 + candidates@ by {
                    assert(s <= cl0 + cands_before);
                    if s.contains(current) {
                        assert forall|x: usize| s.contains(x) implies (cl1 + next0).contains(x) by {
                            if !cl1.contains(x) {
                                assert(cands_before.contains(x));
                                assert(self.g().adj(current, x));
                                assert(next0.contains(x));
                            }
                        }
                        assert(cl1 <= s);
                        assert(s <= cl1 + next0);
                        assert(self.improving_extension(cl1, next0, s));
                        assert(false);
                    }
                }
                // The failed branch also bounds the clique in progress.
                assert(cl1 <= cl1 + next0);
                assert(!self.improving_extension(cl1, next0, cl1));
                assert(cl1.len() == cl0.len() + 1);
                assert((cl0.len() as int) < self.max_clique_size as int);
            }

            empty = candidates.is_empty();
        }

        proof {
            assert(candidates@ =~= Set::<usize>::empty());
            assert(!cd0.is_empty());
            assert forall|s: Set<usize>| !self.improving_extension(cl0, cd0, s) by {
                if self.improving_extension(cl0, cd0, s) {
                    assert(s <= cl0 + candidates@);
                    assert(cl0 + candidates@ =~= cl0);
                    assert(s =~= cl0);
                }
            }
        }
        false
    }
}

} // verus!
