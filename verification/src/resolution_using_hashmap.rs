//! The hashmap backend of the resolution engine: the DAG is kept as an
//! adjacency map of dense 0/1 rows together with a predecessor map, so a
//! node's in-degree is the length of its predecessor list. Both backends
//! satisfy the same `resolve_post` contract.

use crate::integral::Bound;
use crate::integral::IntegralSpec;
use crate::maths::u64_to_string;
use crate::resolution::Resolver;
use crate::resolution::acyclic;
use crate::resolution::all_zero;
use crate::resolution::bit_reaches;
use crate::resolution::bit_step;
use crate::resolution::bound_track;
use crate::resolution::bounds_track;
use crate::resolution::cell_set;
use crate::resolution::clear_row_spec;
use crate::resolution::count_all;
use crate::resolution::count_true;
use crate::resolution::dag_wf;
use crate::resolution::fills_upto;
use crate::resolution::fireable;
use crate::resolution::in_deg;
use crate::resolution::lemma_col_cell;
use crate::resolution::lemma_col_clear_row;
use crate::resolution::lemma_col_one_unique;
use crate::resolution::lemma_col_zero_pointwise;
use crate::resolution::lemma_count_all_delta;
use crate::resolution::lemma_count_all_le;
use crate::resolution::lemma_count_all_nonneg;
use crate::resolution::lemma_count_true_le;
use crate::resolution::lemma_count_true_zero;
use crate::resolution::lemma_fills_facts;
use crate::resolution::lemma_kahn_spec_sub;
use crate::resolution::lemma_keep_first_sub;
use crate::resolution::lemma_reaches_step;
use crate::resolution::lemma_row_count_cell;
use crate::resolution::lemma_row_count_congr;
use crate::resolution::lemma_row_count_zero;
use crate::resolution::lemma_row_one_unique;
use crate::resolution::lemma_row_zero_pointwise;
use crate::resolution::lemma_tr_subset;
use crate::resolution::lemma_bound_resolves_later;
use crate::resolution::lemma_emit_step;
use crate::resolution::lemma_emit_step2;
use crate::resolution::node_isolated;
use crate::resolution::out_deg;
use crate::resolution::resolve_post;
use crate::resolution::row_count;
use crate::resolution::stalled;
use crate::resolution::var_name_text;
use crate::resolution::var_in_upto;
use crate::resolution::zero_row;
use crate::transitive_reduction::apply_transitive_reduction;
use crate::transitive_reduction::col_count;
use crate::transitive_reduction::create_ordre_topologique;
use crate::transitive_reduction::kahn_spec;
use crate::transitive_reduction::keep_first;
use crate::transitive_reduction::matrix_wf;
use crate::transitive_reduction::matv;
use crate::transitive_reduction::tr_pipeline;
use crate::transitive_reduction::transitive_reduction_topologique;
use std::collections::HashMap;
use vstd::prelude::*;

verus! {

broadcast use vstd::std_specs::hash::group_hash_axioms;

/// The ghost adjacency matrix of an adjacency map of 0/1 rows over `n`
/// nodes.
pub open spec fn map_model(adj: Map<usize, Vec<usize>>, n: int) -> Seq<Seq<i32>> {
    Seq::new(
        n as nat,
        |i: int|
            Seq::new(
                n as nat,
                |j: int|
                    if adj[(i as usize)]@[j] == 1usize {
                        1i32
                    } else {
                        0i32
                    },
            ),
    )
}

/// Value `u` occurs in the list.
pub open spec fn in_list(l: Seq<usize>, u: usize) -> bool {
    exists|k: int| 0 <= k < l.len() && l[k] == u
}

/// The adjacency map is well formed over `n` nodes: every node has a row of
/// width `n` with entries in {0, 1}.
pub open spec fn adj_ok(adj: Map<usize, Vec<usize>>, n: int) -> bool {
    forall|i: usize|
        #![trigger adj.contains_key(i)]
        #![trigger adj[i]]
        (i as int) < n ==> {
            &&& adj.contains_key(i)
            &&& adj[i]@.len() == n
            &&& forall|j: int| 0 <= j < n ==> (#[trigger] adj[i]@[j]) == 0usize || adj[i]@[j] == 1usize
        }
}

/// The predecessor map mirrors the model's in-edges: each node's list is
/// duplicate-free, holds exactly its in-neighbours, and its length is the
/// node's in-degree.
pub open spec fn pred_ok(m: Seq<Seq<i32>>, pm: Map<usize, Vec<usize>>, n: int) -> bool {
    forall|c: usize|
        #![trigger pm.contains_key(c)]
        #![trigger pm[c]]
        (c as int) < n ==> {
            let l = pm[c]@;
            &&& pm.contains_key(c)
            &&& (forall|k1: int, k2: int| 0 <= k1 < k2 < l.len() ==> l[k1] != l[k2])
            &&& (forall|k: int| 0 <= k < l.len() ==> ((#[trigger] l[k]) as int) < n)
            &&& (forall|u: usize| (u as int) < n ==> (in_list(l, u) <==> m[u as int][c as int] == 1))
            &&& l.len() == in_deg(m, c as int)
        }
}

/// A directed graph as adjacency and predecessor maps over `size` nodes.
pub struct Graph {
    pub adj: HashMap<usize, Vec<usize>>,
    pub pred: HashMap<usize, Vec<usize>>,
    pub size: usize,
}

impl Graph {
    /// The ghost adjacency matrix this graph holds.
    pub open spec fn dagm(self) -> Seq<Seq<i32>> {
        map_model(self.adj@, self.size as int)
    }

    /// The backend's representation invariant.
    pub open spec fn inv(self) -> bool {
        &&& adj_ok(self.adj@, self.size as int)
        &&& pred_ok(self.dagm(), self.pred@, self.size as int)
        &&& dag_wf(self.dagm())
        &&& acyclic(self.dagm())
    }

    /// Constructs a graph from adjacency and predecessor maps and the
    /// number of vertices.
    pub fn new(adj: HashMap<usize, Vec<usize>>, pred: HashMap<usize, Vec<usize>>, size: usize) -> (r:
        Graph)
        ensures
            r.adj@ == adj@,
            r.pred@ == pred@,
            r.size == size,
    {
        Graph { adj, pred, size }
    }

    /// The row of node `i`.
    fn get_row(&self, i: usize) -> (r: &Vec<usize>)
        requires
            self.adj@.contains_key(i),
        ensures
            *r == self.adj@[i],
    {
        match self.adj.get(&i) {
            Some(row) => row,
            None => vstd::pervasive::unreached(),
        }
    }

    /// The predecessor list of node `i`.
    fn get_preds(&self, i: usize) -> (r: &Vec<usize>)
        requires
            self.pred@.contains_key(i),
        ensures
            *r == self.pred@[i],
    {
        match self.pred.get(&i) {
            Some(l) => l,
            None => vstd::pervasive::unreached(),
        }
    }

    /// Whether every entry of the adjacency relation is zero.
    pub fn verify_all_zero(&self) -> (r: bool)
        requires
            adj_ok(self.adj@, self.size as int),
        ensures
            r == all_zero(self.dagm()),
    {
        let n = self.size;
        let ghost m = self.dagm();
        let mut i: usize = 0;
        while i < n
            invariant
                n == self.size,
                m == self.dagm(),
                adj_ok(self.adj@, n as int),
                0 <= i <= n,
                forall|p: int, q: int| 0 <= p < i && 0 <= q < n ==> (#[trigger] m[p][q]) == 0,
            decreases n - i,
        {
            proof {
                assert(self.adj@[i]@.len() == n);
            }
            let row = self.get_row(i);
            let mut j: usize = 0;
            while j < n
                invariant
                    n == self.size,
                    m == self.dagm(),
                    adj_ok(self.adj@, n as int),
                    i < n,
                    row@ == self.adj@[i]@,
                    row@.len() == n,
                    0 <= j <= n,
                    forall|q: int| 0 <= q < j ==> (#[trigger] m[i as int][q]) == 0,
                decreases n - j,
            {
                if row[j] == 1 {
                    proof {
                        assert(m[i as int][j as int] == 1);
                    }
                    return false;
                }
                proof {
                    assert(m[i as int][j as int] == 0);
                }
                j = j + 1;
            }
            i = i + 1;
        }
        true
    }

    /// The matrix of the current adjacency relation.
    fn matrix_of(&self) -> (r: Vec<Vec<i32>>)
        requires
            adj_ok(self.adj@, self.size as int),
        ensures
            matv(r@) == self.dagm(),
            r@.len() == self.size,
    {
        let n = self.size;
        let ghost m = self.dagm();
        let mut rows: Vec<Vec<i32>> = Vec::new();
        let mut i: usize = 0;
        while i < n
            invariant
                n == self.size,
                m == self.dagm(),
                adj_ok(self.adj@, n as int),
                0 <= i <= n,
                rows@.len() == i,
                forall|p: int| 0 <= p < i ==> (#[trigger] rows@[p])@ == m[p],
            decreases n - i,
        {
            proof {
                assert(self.adj@[i]@.len() == n);
            }
            let arow = self.get_row(i);
            let mut row: Vec<i32> = Vec::new();
            let mut j: usize = 0;
            while j < n
                invariant
                    n == self.size,
                    m == self.dagm(),
                    adj_ok(self.adj@, n as int),
                    i < n,
                    arow@ == self.adj@[i]@,
                    arow@.len() == n,
                    0 <= j <= n,
                    row@.len() == j,
                    forall|q: int| 0 <= q < j ==> (#[trigger] row@[q]) == m[i as int][q],
                decreases n - j,
            {
                if arow[j] == 1 {
                    row.push(1);
                } else {
                    row.push(0);
                }
                j = j + 1;
            }
            proof {
                assert(row@ =~= m[i as int]);
            }
            rows.push(row);
            i = i + 1;
        }
        proof {
            assert(matv(rows@) =~= m);
        }
        rows
    }
}

/// Builds an adjacency map of normalized 0/1 rows from a matrix.
pub fn construire_adj(matrice: Vec<Vec<i32>>) -> (r: HashMap<usize, Vec<usize>>)
    requires
        forall|i: int|
            0 <= i < matrice@.len() ==> (#[trigger] matv(matrice@)[i]).len() == matrice@.len(),
    ensures
        adj_ok(r@, matrice@.len() as int),
        map_model(r@, matrice@.len() as int) == normalize(matv(matrice@)),
{
    let ghost m = matv(matrice@);
    let n = matrice.len();
    let mut adj: HashMap<usize, Vec<usize>> = HashMap::new();
    let mut i: usize = 0;
    while i < n
        invariant
            n == matrice@.len(),
            m == matv(matrice@),
            forall|p: int| 0 <= p < n ==> (#[trigger] m[p]).len() == n,
            0 <= i <= n,
            forall|p: usize|
                #![trigger adj@.contains_key(p)]
                #![trigger adj@[p]]
                (p as int) < i ==> {
                    &&& adj@.contains_key(p)
                    &&& adj@[p]@.len() == n
                    &&& forall|q: int|
                        0 <= q < n ==> (#[trigger] adj@[p]@[q]) == (if m[p as int][q] == 1 {
                            1usize
                        } else {
                            0usize
                        })
                },
        decreases n - i,
    {
        proof {
            assert(m[i as int] == matrice@[i as int]@);
        }
        let src = &matrice[i];
        let mut row: Vec<usize> = Vec::new();
        let mut j: usize = 0;
        while j < n
            invariant
                n == matrice@.len(),
                m == matv(matrice@),
                i < n,
                m[i as int].len() == n,
                src@ == m[i as int],
                0 <= j <= n,
                row@.len() == j,
                forall|q: int|
                    0 <= q < j ==> (#[trigger] row@[q]) == (if m[i as int][q] == 1 {
                        1usize
                    } else {
                        0usize
                    }),
            decreases n - j,
        {
            if src[j] == 1 {
                row.push(1);
            } else {
                row.push(0);
            }
            j = j + 1;
        }
        let ghost apre = adj@;
        let ghost rowv = row@;
        adj.insert(i, row);
        proof {
            assert forall|p: usize|
                #![trigger adj@.contains_key(p)]
                #![trigger adj@[p]]
                (p as int) < i + 1 implies {
                &&& adj@.contains_key(p)
                &&& adj@[p]@.len() == n
                &&& forall|q: int|
                    0 <= q < n ==> (#[trigger] adj@[p]@[q]) == (if m[p as int][q] == 1 {
                        1usize
                    } else {
                        0usize
                    })
            } by {
                if (p as int) < i {
                    assert((apre[p])@.len() == n);
                    assert(apre.contains_key(p));
                    assert(adj@[p] == apre[p]);
                    assert(adj@.contains_key(p));
                } else {
                    assert(adj@.contains_key(p));
                    assert(adj@[p]@ == rowv);
                }
            }
        }
        i = i + 1;
    }
    proof {
        assert forall|p: usize| (p as int) < n implies (adj@.contains_key(p) && (
        #[trigger] adj@[p])@.len() == n) by {
            assert(adj@[p]@.len() == n);
        }
        assert(map_model(adj@, n as int) =~~= normalize(m));
    }
    adj
}

/// The matrix with every non-1 entry replaced by 0.
pub open spec fn normalize(m: Seq<Seq<i32>>) -> Seq<Seq<i32>> {
    Seq::new(
        m.len(),
        |i: int|
            Seq::new(m.len(), |j: int| if m[i][j] == 1 {
                1i32
            } else {
                0i32
            }),
    )
}

/// Builds the predecessor map of an adjacency map: for each node, the list
/// of its in-neighbours in ascending order.
pub fn construire_pred(adj: &HashMap<usize, Vec<usize>>, size: usize) -> (r: HashMap<
    usize,
    Vec<usize>,
>)
    requires
        adj_ok(adj@, size as int),
    ensures
        pred_ok(map_model(adj@, size as int), r@, size as int),
{
    let n = size;
    let ghost m = map_model(adj@, n as int);
    proof {
        assert(m.len() == n);
        assert(forall|i: int| 0 <= i < n ==> (#[trigger] m[i]).len() == n);
    }
    let mut pred: HashMap<usize, Vec<usize>> = HashMap::new();
    let mut t: usize = 0;
    while t < n
        invariant
            n == size,
            m == map_model(adj@, n as int),
            m.len() == n,
            adj_ok(adj@, n as int),
            0 <= t <= n,
            forall|c: usize|
                #![trigger pred@.contains_key(c)]
                #![trigger pred@[c]]
                (c as int) < t ==> {
                    let pl = pred@[c]@;
                    &&& pred@.contains_key(c)
                    &&& (forall|k1: int, k2: int| 0 <= k1 < k2 < pl.len() ==> pl[k1] != pl[k2])
                    &&& (forall|k: int| 0 <= k < pl.len() ==> ((#[trigger] pl[k]) as int) < n)
                    &&& (forall|u: usize|
                        (u as int) < n ==> (in_list(pl, u) <==> m[u as int][c as int] == 1))
                    &&& pl.len() == in_deg(m, c as int)
                },
        decreases n - t,
    {
        let mut l: Vec<usize> = Vec::new();
        let mut u: usize = 0;
        while u < n
            invariant
                n == size,
                m == map_model(adj@, n as int),
                m.len() == n,
                adj_ok(adj@, n as int),
                t < n,
                0 <= u <= n,
                forall|k1: int, k2: int|
                    0 <= k1 < k2 < l@.len() ==> (#[trigger] l@[k1]) != (#[trigger] l@[k2]),
                forall|k: int| 0 <= k < l@.len() ==> ((#[trigger] l@[k]) as int) < u,
                forall|w: usize|
                    (w as int) < n ==> (in_list(l@, w) <==> ((w as int) < u && m[w as int][t as int]
                        == 1)),
                l@.len() as int == col_count(m, t as int, u as int),
            decreases n - u,
        {
            let ghost l0 = l@;
            proof {
                assert(adj@[u]@.len() == n);
                assert(adj@.contains_key(u));
            }
            let row = match adj.get(&u) {
                Some(row) => row,
                None => vstd::pervasive::unreached(),
            };
            proof {
                assert(row@ == adj@[u]@);
                assert(m[u as int][t as int] == (if adj@[u]@[t as int] == 1usize {
                    1i32
                } else {
                    0i32
                }));
            }
            if row[t] == 1 {
                l.push(u);
                proof {
                    assert(m[u as int][t as int] == 1);
                    assert forall|w: usize| (w as int) < n implies (in_list(l@, w) <==> ((w as int)
                        < u + 1 && m[w as int][t as int] == 1)) by {
                        if in_list(l@, w) {
                            let k = choose|k: int| 0 <= k < l@.len() && l@[k] == w;
                            if k < l0.len() {
                                assert(l0[k] == w);
                                assert(in_list(l0, w));
                            } else {
                                assert(l@[k] == u);
                            }
                        }
                        if (w as int) < u + 1 && m[w as int][t as int] == 1 {
                            if (w as int) < u {
                                assert(in_list(l0, w));
                                let k = choose|k: int| 0 <= k < l0.len() && l0[k] == w;
                                assert(l@[k] == w);
                                assert(in_list(l@, w));
                            } else {
                                assert(l@[l0.len() as int] == u);
                                assert(in_list(l@, w));
                            }
                        }
                    }
                }
            } else {
                proof {
                    assert(m[u as int][t as int] != 1);
                    assert forall|w: usize| (w as int) < n implies (in_list(l@, w) <==> ((w as int)
                        < u + 1 && m[w as int][t as int] == 1)) by {
                    }
                }
            }
            u = u + 1;
        }
        let ghost ppre = pred@;
        let ghost lv = l@;
        pred.insert(t, l);
        proof {
            assert forall|c: usize|
                #![trigger pred@.contains_key(c)]
                #![trigger pred@[c]]
                (c as int) < t + 1 implies {
                let pl = pred@[c]@;
                &&& pred@.contains_key(c)
                &&& (forall|k1: int, k2: int| 0 <= k1 < k2 < pl.len() ==> pl[k1] != pl[k2])
                &&& (forall|k: int| 0 <= k < pl.len() ==> ((#[trigger] pl[k]) as int) < n)
                &&& (forall|u2: usize|
                    (u2 as int) < n ==> (in_list(pl, u2) <==> m[u2 as int][c as int] == 1))
                &&& pl.len() == in_deg(m, c as int)
            } by {
                if (c as int) < t {
                    assert((ppre[c])@.len() == in_deg(m, c as int));
                    assert(ppre.contains_key(c));
                    assert(pred@[c] == ppre[c]);
                    assert(pred@.contains_key(c));
                } else {
                    assert(pred@.contains_key(c));
                    assert(pred@[c]@ == lv);
                }
            }
        }
        t = t + 1;
    }
    pred
}

impl Graph {
    /// A fresh all-zero row.
    fn zero_urow(&self, n: usize) -> (r: Vec<usize>)
        ensures
            r@.len() == n,
            forall|j: int| 0 <= j < n ==> (#[trigger] r@[j]) == 0usize,
    {
        let mut r: Vec<usize> = Vec::new();
        let mut j: usize = 0;
        while j < n
            invariant
                0 <= j <= n,
                r@.len() == j,
                forall|q: int| 0 <= q < j ==> (#[trigger] r@[q]) == 0usize,
            decreases n - j,
        {
            r.push(0);
            j = j + 1;
        }
        r
    }

    /// Removes node `c` from the predecessor list of `s`.
    fn pred_remove(&mut self, s: usize, c: usize)
        requires
            old(self).pred@.contains_key(s),
            forall|k1: int, k2: int|
                0 <= k1 < k2 < old(self).pred@[s]@.len() ==> (#[trigger] old(self).pred@[s]@[k1])
                    != (#[trigger] old(self).pred@[s]@[k2]),
        ensures
            final(self).adj@ == old(self).adj@,
            final(self).size == old(self).size,
            final(self).pred@.dom() == old(self).pred@.dom(),
            forall|c2: usize|
                c2 != s ==> (#[trigger] final(self).pred@[c2]) == old(self).pred@[c2],
            forall|u: usize|
                in_list(final(self).pred@[s]@, u) <==> (in_list(old(self).pred@[s]@, u) && u != c),
            forall|k1: int, k2: int|
                0 <= k1 < k2 < final(self).pred@[s]@.len() ==> (#[trigger] final(self).pred@[s]@[k1])
                    != (#[trigger] final(self).pred@[s]@[k2]),
            forall|k: int|
                0 <= k < final(self).pred@[s]@.len() ==> in_list(
                    old(self).pred@[s]@,
                    #[trigger] final(self).pred@[s]@[k],
                ),
            final(self).pred@[s]@.len() == old(self).pred@[s]@.len() - (if in_list(
                old(self).pred@[s]@,
                c,
            ) {
                1int
            } else {
                0int
            }),
    {
        let ghost l0 = self.pred@[s]@;
        let mut filtered: Vec<usize> = Vec::new();
        {
            let l = self.get_preds(s);
            let len = l.len();
            let mut k: usize = 0;
            let ghost mut seen: bool = false;
            while k < len
                invariant
                    len == l0.len(),
                    l@ == l0,
                    0 <= k <= len,
                    forall|k1: int, k2: int|
                        0 <= k1 < k2 < l0.len() ==> (#[trigger] l0[k1]) != (#[trigger] l0[k2]),
                    forall|u: usize|
                        in_list(filtered@, u) <==> (exists|q: int|
                            0 <= q < k && l0[q] == u && u != c),
                    forall|q1: int, q2: int|
                        0 <= q1 < q2 < filtered@.len() ==> (#[trigger] filtered@[q1]) != (
                        #[trigger] filtered@[q2]),
                    forall|q: int|
                        0 <= q < filtered@.len() ==> in_list(l0, #[trigger] filtered@[q]),
                    seen == exists|q: int| 0 <= q < k && l0[q] == c,
                    filtered@.len() == k - (if seen {
                        1int
                    } else {
                        0int
                    }),
                decreases len - k,
            {
                let ghost f0 = filtered@;
                let x = l[k];
                if x != c {
                    filtered.push(x);
                    proof {
                        assert(l0[k as int] == x);
                        assert forall|u: usize| in_list(filtered@, u) implies (exists|q: int|
                            0 <= q < k + 1 && l0[q] == u && u != c) by {
                            let q0 = choose|q0: int|
                                0 <= q0 < filtered@.len() && filtered@[q0] == u;
                            if q0 < f0.len() {
                                assert(f0[q0] == u);
                                assert(in_list(f0, u));
                            } else {
                                assert(filtered@[q0] == x);
                                assert(l0[k as int] == u && u != c);
                            }
                        }
                        assert forall|u: usize| (exists|q: int|
                            0 <= q < k + 1 && l0[q] == u && u != c) implies in_list(
                            filtered@,
                            u,
                        ) by {
                            let q = choose|q: int| 0 <= q < k + 1 && l0[q] == u && u != c;
                            if q < k {
                                assert(in_list(f0, u));
                                let q2 = choose|q2: int| 0 <= q2 < f0.len() && f0[q2] == u;
                                assert(filtered@[q2] == u);
                            } else {
                                assert(filtered@[f0.len() as int] == u);
                            }
                        }
                        // The appended value is fresh in `filtered`.
                        assert forall|q1: int, q2: int|
                            0 <= q1 < q2 < filtered@.len() implies (#[trigger] filtered@[q1]) != (
                        #[trigger] filtered@[q2]) by {
                            if q2 == filtered@.len() - 1 {
                                if f0[q1] == x {
                                    assert(in_list(f0, x)) by {
                                        assert(f0[q1] == x);
                                    }
                                    let qx = choose|q: int| 0 <= q < k && l0[q] == x && x != c;
                                    assert(l0[qx] == l0[k as int]);
                                    assert(false);
                                }
                            }
                        }
                        assert forall|q: int|
                            0 <= q < filtered@.len() implies in_list(
                            l0,
                            #[trigger] filtered@[q],
                        ) by {
                            if q < f0.len() {
                            } else {
                                assert(l0[k as int] == filtered@[q]);
                            }
                        }
                    }
                } else {
                    proof {
                        assert(l0[k as int] == c);
                        seen = true;
                        assert forall|u: usize| in_list(filtered@, u) implies (exists|q: int|
                            0 <= q < k + 1 && l0[q] == u && u != c) by {
                            let q0 = choose|q0: int| 0 <= q0 < k && l0[q0] == u && u != c;
                        }
                        assert forall|u: usize| (exists|q: int|
                            0 <= q < k + 1 && l0[q] == u && u != c) implies in_list(
                            filtered@,
                            u,
                        ) by {
                            let q = choose|q: int| 0 <= q < k + 1 && l0[q] == u && u != c;
                            assert(q < k);
                        }
                    }
                }
                k = k + 1;
            }
            proof {
                if in_list(l0, c) {
                    let q = choose|q: int| 0 <= q < l0.len() && l0[q] == c;
                    assert(seen);
                }
                if seen {
                    assert(in_list(l0, c));
                }
            }
        }
        self.pred.insert(s, filtered);
        proof {
            assert(final(self).pred@.dom() =~= old(self).pred@.dom());
        }
    }

    /// Repairs the graph after a bypass: computes the topological edge
    /// order, drops later duplicate in-edges, and rebuilds the adjacency
    /// and predecessor maps from the surviving edges.
    fn transitive_reduction(&mut self)
        requires
            adj_ok(old(self).adj@, old(self).size as int),
        ensures
            final(self).size == old(self).size,
            adj_ok(final(self).adj@, final(self).size as int),
            final(self).dagm() == tr_pipeline(old(self).dagm()),
            pred_ok(final(self).dagm(), final(self).pred@, final(self).size as int),
    {
        let n = self.size;
        let ghost m = self.dagm();
        proof {
            assert(matrix_wf(m));
        }
        let mat = self.matrix_of();
        let ordre = self.create_ordre_topologique(mat);
        let reduced = transitive_reduction_topologique(&ordre);
        proof {
            lemma_kahn_spec_sub(m);
            lemma_keep_first_sub(kahn_spec(m), kahn_spec(m).len() as int);
            assert forall|k: int|
                0 <= k < reduced@.len() implies (#[trigger] reduced@[k]).0 < n && reduced@[k].1
                < n by {
                let i2 = choose|i2: int|
                    0 <= i2 < kahn_spec(m).len() && (#[trigger] reduced@[k]) == kahn_spec(m)[i2];
            }
        }
        let nm = apply_transitive_reduction(n, reduced);
        proof {
            assert(matv(nm@) == tr_pipeline(m));
            assert(forall|i: int|
                0 <= i < nm@.len() ==> (#[trigger] matv(nm@)[i]).len() == nm@.len());
        }
        let newadj = construire_adj(nm);
        proof {
            assert(normalize(tr_pipeline(m)) =~~= tr_pipeline(m));
            assert(map_model(newadj@, n as int) == tr_pipeline(m));
        }
        let newpred = construire_pred(&newadj, n);
        self.adj = newadj;
        self.pred = newpred;
    }

    /// The topological edge order of the graph's adjacency matrix.
    fn create_ordre_topologique(&self, mat: Vec<Vec<i32>>) -> (r: Vec<(usize, usize)>)
        requires
            matv(mat@) == self.dagm(),
            matrix_wf(matv(mat@)),
        ensures
            r@ == kahn_spec(self.dagm()),
    {
        create_ordre_topologique(mat)
    }

    /// Rewrites the DAG until fully isolated or stalled, scanning for the
    /// first node whose predecessor-list length and row count fire a case
    /// and restarting from node 0 after every rewrite. Returns the emitted
    /// specification and whether resolution succeeded; on failure the
    /// specification is empty.
    pub fn resolution_adjacence(&mut self) -> (r: (IntegralSpec, bool))
        requires
            old(self).inv(),
        ensures
            final(self).inv(),
            final(self).size == old(self).size,
            resolve_post(old(self).dagm(), final(self).dagm(), r.0, r.1),
    {
        let n = self.size;
        let ghost m0 = self.dagm();
        let mut entries: Vec<(usize, Bound, Bound)> = Vec::new();
        let mut emitted: Vec<bool> = Vec::new();
        let mut i0: usize = 0;
        while i0 < n
            invariant
                0 <= i0 <= n,
                emitted@.len() == i0,
                forall|p: int| 0 <= p < i0 ==> !(#[trigger] emitted@[p]),
            decreases n - i0,
        {
            emitted.push(false);
            i0 = i0 + 1;
        }
        proof {
            lemma_count_true_zero(emitted@, n as int);
        }
        let mut cpt: usize = 0;
        while cpt < n
            invariant
                n == self.size,
                self.dagm().len() == n,
                m0.len() == n,
                adj_ok(self.adj@, n as int),
                pred_ok(self.dagm(), self.pred@, n as int),
                dag_wf(self.dagm()),
                acyclic(self.dagm()),
                0 <= cpt <= n,
                forall|c: int| 0 <= c < cpt ==> !fireable(self.dagm(), c),
                emitted@.len() == n,
                entries@.len() == count_true(emitted@, n as int),
                entries@.len() <= n,
                forall|c: int|
                    0 <= c < n ==> ((#[trigger] emitted@[c]) <==> var_in_upto(
                        entries@,
                        c,
                        entries@.len() as int,
                    )),
                forall|p: int, q: int|
                    0 <= p < q < entries@.len() ==> (#[trigger] entries@[p]).0 != (
                    #[trigger] entries@[q]).0,
                forall|i: int| 0 <= i < entries@.len() ==> ((#[trigger] entries@[i]).0 as int) < n,
                forall|c: int|
                    0 <= c < n && emitted@[c] ==> node_isolated(self.dagm(), c),
                forall|i: int| 0 <= i < entries@.len() ==> bounds_track(entries@, i, n as int),
                bit_reaches(m0, self.dagm(), entries@),
            decreases count_all(self.dagm(), n as int), n - cpt,
        {
            let ghost mpre = self.dagm();
            proof {
                assert(forall|i: int| 0 <= i < n ==> (#[trigger] mpre[i]).len() == n);
                lemma_count_all_nonneg(mpre, n as int);
                assert(self.adj@[cpt]@.len() == n);
                assert(self.adj@.contains_key(cpt));
            }
            let mut sortante: usize = 0;
            let mut index_sortante: usize = 0;
            {
                let row = self.get_row(cpt);
                let mut j: usize = 0;
                while j < n
                    invariant
                        n == self.size,
                        mpre == self.dagm(),
                        mpre.len() == n,
                        cpt < n,
                        row@ == self.adj@[cpt]@,
                        row@.len() == n,
                        0 <= j <= n,
                        sortante as int == row_count(mpre, cpt as int, j as int),
                        sortante <= j,
                        sortante >= 1 ==> (index_sortante < j && mpre[cpt as int][index_sortante as int]
                            == 1),
                    decreases n - j,
                {
                    proof {
                        assert(mpre[cpt as int][j as int] == (if row@[j as int] == 1usize {
                            1i32
                        } else {
                            0i32
                        }));
                    }
                    if row[j] == 1 {
                        sortante = sortante + 1;
                        index_sortante = j;
                    }
                    j = j + 1;
                }
            }
            proof {
                assert(sortante as int == out_deg(mpre, cpt as int));
                assert(self.pred@[cpt]@.len() == in_deg(mpre, cpt as int));
                assert(self.pred@.contains_key(cpt));
            }
            let mut ind: usize = 0;
            let mut p: usize = 0;
            {
                let pl = self.get_preds(cpt);
                ind = pl.len();
                if ind >= 1 {
                    p = pl[0];
                    proof {
                        assert(in_list(self.pred@[cpt]@, p)) by {
                            assert(self.pred@[cpt]@[0] == p);
                        }
                        assert((p as int) < n);
                        assert(mpre[p as int][cpt as int] == 1);
                    }
                }
            }
            let s = index_sortante;
            let ghost es0 = entries@;
            let ghost em0 = emitted@;

            if ind == 0 && sortante == 1 {
                // Top case: emit (c, 0, x_s) and isolate c.
                let e = (cpt, Bound::Zero, Bound::Var(s));
                let zrow = self.zero_urow(n);
                self.adj.insert(cpt, zrow);
                proof {
                    assert(self.dagm() =~~= clear_row_spec(mpre, cpt as int));
                    assert(self.pred@[s]@.len() == in_deg(mpre, s as int));
                    assert(self.pred@.contains_key(s));
                }
                let ghost predpre = self.pred@;
                self.pred_remove(s, cpt);
                entries.push(e);
                emitted.set(cpt, true);
                proof {
                    let c = cpt as int;
                    let m2 = self.dagm();
                    assert(m2 == clear_row_spec(mpre, c));
                    assert(mpre[c][s as int] == 1);
                    assert(bit_step(mpre, c, m2, e));
                    assert(!em0[c]) by {
                        if em0[c] {
                            assert(node_isolated(mpre, c));
                        }
                    }
                    assert(!em0[s as int]) by {
                        if em0[s as int] {
                            assert(node_isolated(mpre, s as int));
                        }
                    }
                    assert(s as int != c);
                    lemma_emit_step(es0, em0, e, c, s as int, n as int);
                    assert(m2[c] == zero_row(n as int));
                    lemma_col_zero_pointwise(mpre, c, n as int);
                    lemma_row_one_unique(mpre, c, s as int, n as int);
                    assert forall|d: int| 0 <= d < n && emitted@[d] implies node_isolated(
                        m2,
                        d,
                    ) by {
                        assert(forall|i: int| 0 <= i < n && i != c ==> m2[i] == mpre[i]);
                        assert(forall|jj: int| 0 <= jj < n ==> m2[c][jj] == 0);
                        if d != c {
                            assert(node_isolated(mpre, d));
                        }
                    }
                    assert(dag_wf(m2));
                    let rank = choose|rank: Seq<int>|
                        rank.len() == mpre.len() && forall|u: int, v: int|
                            0 <= u < mpre.len() && 0 <= v < mpre.len() && #[trigger] mpre[u][v]
                                == 1 ==> rank[u] < rank[v];
                    assert(rank.len() == m2.len() && forall|u: int, v: int|
                        0 <= u < m2.len() && 0 <= v < m2.len() && #[trigger] m2[u][v] == 1
                            ==> rank[u] < rank[v]);
                    assert(acyclic(m2));
                    lemma_count_all_delta(mpre, m2, c, n as int);
                    lemma_row_count_zero(m2, c, n as int);
                    assert(count_all(m2, n as int) == count_all(mpre, n as int) - 1);
                    lemma_reaches_step(m0, mpre, m2, es0, c, e);
                    // The predecessor map still mirrors the in-edges.
                    assert forall|c2: usize| (c2 as int) < n implies {
                        let l = (#[trigger] self.pred@[c2])@;
                        &&& self.pred@.contains_key(c2)
                        &&& (forall|k1: int, k2: int| 0 <= k1 < k2 < l.len() ==> l[k1] != l[k2])
                        &&& (forall|k: int| 0 <= k < l.len() ==> ((#[trigger] l[k]) as int) < n)
                        &&& (forall|u: usize|
                            (u as int) < n ==> (in_list(l, u) <==> m2[u as int][c2 as int] == 1))
                        &&& l.len() == in_deg(m2, c2 as int)
                    } by {
                        assert(predpre[c2]@.len() == in_deg(mpre, c2 as int));
                        assert(predpre.contains_key(c2));
                        lemma_col_clear_row(mpre, c, c2 as int, n as int);
                        if c2 == s {
                            assert(in_list(predpre[s]@, cpt)) by {
                                assert(mpre[c][s as int] == 1);
                            }
                            assert(self.pred@[s]@.len() == in_deg(m2, s as int));
                            assert forall|u: usize| (u as int) < n implies (in_list(
                                self.pred@[s]@,
                                u,
                            ) <==> m2[u as int][s as int] == 1) by {
                                if u != cpt {
                                    assert(m2[u as int] == mpre[u as int]);
                                } else {
                                    assert(m2[c][s as int] == 0);
                                }
                            }
                            assert forall|k: int|
                                0 <= k < self.pred@[s]@.len() implies ((#[trigger] self.pred@[s]@[k]) as int)
                                < n by {
                                assert(in_list(predpre[s]@, self.pred@[s]@[k]));
                                let q = choose|q: int|
                                    0 <= q < predpre[s]@.len() && predpre[s]@[q]
                                        == self.pred@[s]@[k];
                            }
                        } else {
                            assert(self.pred@[c2] == predpre[c2]);
                            assert(mpre[c][c2 as int] != 1);
                            assert(in_deg(m2, c2 as int) == in_deg(mpre, c2 as int));
                            assert forall|u: usize| (u as int) < n implies (in_list(
                                self.pred@[c2]@,
                                u,
                            ) <==> m2[u as int][c2 as int] == 1) by {
                                if u != cpt {
                                    assert(m2[u as int] == mpre[u as int]);
                                } else {
                                    assert(m2[c][c2 as int] == 0);
                                    assert(mpre[c][c2 as int] != 1);
                                    if in_list(predpre[c2]@, u) {
                                        assert(mpre[u as int][c2 as int] == 1);
                                    }
                                }
                            }
                        }
                    }
                }
                cpt = 0;
            } else if ind == 1 && sortante == 0 {
                // Bottom case: emit (c, x_p, 1) and delete the edge p -> c.
                let e = (cpt, Bound::Var(p), Bound::One);
                proof {
                    assert(self.adj@[p]@.len() == n);
                    assert(self.adj@.contains_key(p));
                }
                let mut rp = self.get_row(p).clone();
                proof {
                    assert(rp@ =~= self.adj@[p]@);
                }
                rp.set(cpt, 0);
                self.adj.insert(p, rp);
                let ghost predpre = self.pred@;
                self.pred.insert(cpt, Vec::new());
                entries.push(e);
                emitted.set(cpt, true);
                proof {
                    let c = cpt as int;
                    let m2 = self.dagm();
                    assert(m2 =~~= cell_set(mpre, p as int, c, 0));
                    assert(m2 == cell_set(mpre, p as int, c, 0));
                    assert(mpre[p as int][c] == 1);
                    assert(bit_step(mpre, c, m2, e));
                    assert(!em0[c]) by {
                        if em0[c] {
                            assert(node_isolated(mpre, c));
                        }
                    }
                    assert(!em0[p as int]) by {
                        if em0[p as int] {
                            assert(node_isolated(mpre, p as int));
                        }
                    }
                    assert(p as int != c);
                    lemma_emit_step(es0, em0, e, c, p as int, n as int);
                    lemma_row_zero_pointwise(mpre, c, n as int);
                    lemma_col_one_unique(mpre, c, p as int, n as int);
                    assert(forall|i: int| 0 <= i < n && i != p ==> m2[i] == mpre[i]);
                    assert(m2[p as int] =~= mpre[p as int].update(c, 0));
                    assert forall|d: int| 0 <= d < n && emitted@[d] implies node_isolated(
                        m2,
                        d,
                    ) by {
                        if d != c {
                            assert(node_isolated(mpre, d));
                            assert(forall|jj: int| 0 <= jj < n ==> m2[d][jj] == mpre[d][jj]);
                            assert(forall|i: int| 0 <= i < n ==> m2[i][d] == mpre[i][d]);
                        } else {
                            assert(forall|jj: int| 0 <= jj < n ==> m2[c][jj] == mpre[c][jj]);
                            assert(forall|i: int| 0 <= i < n && i != p ==> m2[i][c] == mpre[i][c]);
                            assert(m2[p as int][c] == 0);
                        }
                    }
                    assert(dag_wf(m2)) by {
                        assert(forall|i: int, jj: int|
                            0 <= i < n && 0 <= jj < n ==> (#[trigger] m2[i][jj]) == 0 || m2[i][jj]
                                == 1);
                    }
                    let rank = choose|rank: Seq<int>|
                        rank.len() == mpre.len() && forall|u: int, v: int|
                            0 <= u < mpre.len() && 0 <= v < mpre.len() && #[trigger] mpre[u][v]
                                == 1 ==> rank[u] < rank[v];
                    assert(rank.len() == m2.len() && forall|u: int, v: int|
                        0 <= u < m2.len() && 0 <= v < m2.len() && #[trigger] m2[u][v] == 1
                            ==> rank[u] < rank[v]);
                    assert(acyclic(m2));
                    lemma_count_all_delta(mpre, m2, p as int, n as int);
                    lemma_row_count_cell(mpre, p as int, c, 0, n as int);
                    assert(count_all(m2, n as int) == count_all(mpre, n as int) - 1);
                    lemma_reaches_step(m0, mpre, m2, es0, c, e);
                    // The predecessor map still mirrors the in-edges.
                    assert forall|c2: usize| (c2 as int) < n implies {
                        let l = (#[trigger] self.pred@[c2])@;
                        &&& self.pred@.contains_key(c2)
                        &&& (forall|k1: int, k2: int| 0 <= k1 < k2 < l.len() ==> l[k1] != l[k2])
                        &&& (forall|k: int| 0 <= k < l.len() ==> ((#[trigger] l[k]) as int) < n)
                        &&& (forall|u: usize|
                            (u as int) < n ==> (in_list(l, u) <==> m2[u as int][c2 as int] == 1))
                        &&& l.len() == in_deg(m2, c2 as int)
                    } by {
                        lemma_col_cell(mpre, p as int, c, 0, c2 as int, n as int);
                        if c2 == cpt {
                            assert(self.pred@[cpt]@.len() == 0);
                            assert(in_deg(m2, c) == 0);
                            assert forall|u: usize| (u as int) < n implies (in_list(
                                self.pred@[cpt]@,
                                u,
                            ) <==> m2[u as int][c] == 1) by {
                                if u == p {
                                    assert(m2[p as int][c] == 0);
                                } else {
                                    assert(m2[u as int][c] == mpre[u as int][c]);
                                    assert(mpre[u as int][c] != 1);
                                }
                            }
                        } else {
                            assert(predpre[c2]@.len() == in_deg(mpre, c2 as int));
                            assert(predpre.contains_key(c2));
                            assert(self.pred@[c2] == predpre[c2]);
                            assert(in_deg(m2, c2 as int) == in_deg(mpre, c2 as int));
                            assert forall|u: usize| (u as int) < n implies (in_list(
                                self.pred@[c2]@,
                                u,
                            ) <==> m2[u as int][c2 as int] == 1) by {
                                if u != p {
                                    assert(m2[u as int] == mpre[u as int]);
                                } else {
                                    assert(m2[p as int][c2 as int] == mpre[p as int][c2 as int]);
                                }
                            }
                        }
                    }
                }
                cpt = 0;
            } else if ind == 1 && sortante == 1 {
                // Interior case: emit (c, x_p, x_s), rewire p -> s around c,
                // isolate c, and repair by transitive reduction.
                let e = (cpt, Bound::Var(p), Bound::Var(s));
                proof {
                    assert(self.adj@[p]@.len() == n);
                    assert(self.adj@.contains_key(p));
                }
                let mut rp = self.get_row(p).clone();
                proof {
                    assert(rp@ =~= self.adj@[p]@);
                }
                rp.set(s, 1);
                rp.set(cpt, 0);
                self.adj.insert(p, rp);
                let zrow = self.zero_urow(n);
                self.adj.insert(cpt, zrow);
                let ghost c3 = clear_row_spec(
                    cell_set(cell_set(mpre, p as int, s as int, 1), p as int, cpt as int, 0),
                    cpt as int,
                );
                proof {
                    let c = cpt as int;
                    let rank = choose|rank: Seq<int>|
                        rank.len() == mpre.len() && forall|u: int, v: int|
                            0 <= u < mpre.len() && 0 <= v < mpre.len() && #[trigger] mpre[u][v]
                                == 1 ==> rank[u] < rank[v];
                    assert(mpre[p as int][c] == 1 && mpre[c][s as int] == 1);
                    assert(rank[p as int] < rank[c] && rank[c] < rank[s as int]);
                    assert(p != s);
                    assert(p as int != c && s as int != c);
                    assert(self.dagm() =~~= c3);
                    assert(adj_ok(self.adj@, n as int));
                }
                self.transitive_reduction();
                entries.push(e);
                emitted.set(cpt, true);
                proof {
                    let c = cpt as int;
                    let m2 = self.dagm();
                    assert(m2 == tr_pipeline(c3));
                    lemma_tr_subset(c3);
                    assert(m2.len() == n);
                    assert(bit_step(mpre, c, m2, e));
                    assert(!em0[c]) by {
                        if em0[c] {
                            assert(node_isolated(mpre, c));
                        }
                    }
                    assert(!em0[p as int]) by {
                        if em0[p as int] {
                            assert(node_isolated(mpre, p as int));
                        }
                    }
                    assert(!em0[s as int]) by {
                        if em0[s as int] {
                            assert(node_isolated(mpre, s as int));
                        }
                    }
                    lemma_emit_step2(es0, em0, e, c, p as int, s as int, n as int);
                    lemma_col_one_unique(mpre, c, p as int, n as int);
                    let rank = choose|rank: Seq<int>|
                        rank.len() == mpre.len() && forall|u: int, v: int|
                            0 <= u < mpre.len() && 0 <= v < mpre.len() && #[trigger] mpre[u][v]
                                == 1 ==> rank[u] < rank[v];
                    assert(rank[p as int] < rank[c] && rank[c] < rank[s as int]);
                    assert(p != s);
                    assert(forall|i: int| 0 <= i < n && i != p && i != c ==> c3[i] == mpre[i]);
                    assert(c3[c] == zero_row(n as int));
                    assert(forall|jj: int|
                        0 <= jj < n ==> c3[p as int][jj] == mpre[p as int].update(
                            s as int,
                            1,
                        ).update(c, 0)[jj]);
                    assert forall|d: int| 0 <= d < n && emitted@[d] implies node_isolated(
                        m2,
                        d,
                    ) by {
                        if d == c {
                            assert(forall|jj: int| 0 <= jj < n ==> c3[c][jj] == 0);
                            assert(c3[p as int][c] == 0);
                            assert(forall|i: int|
                                0 <= i < n && i != p && i != c ==> c3[i][c] == mpre[i][c]);
                            assert(forall|i: int| 0 <= i < n ==> c3[i][c] != 1);
                            assert(forall|i: int| 0 <= i < n ==> m2[i][c] != 1);
                            assert(forall|jj: int| 0 <= jj < n ==> m2[c][jj] != 1);
                        } else {
                            assert(node_isolated(mpre, d));
                            assert(d != p && d != s);
                            assert(forall|jj: int| 0 <= jj < n ==> c3[d][jj] != 1);
                            assert(forall|i: int| 0 <= i < n ==> c3[i][d] != 1);
                            assert(forall|jj: int| 0 <= jj < n ==> m2[d][jj] != 1);
                            assert(forall|i: int| 0 <= i < n ==> m2[i][d] != 1);
                        }
                    }
                    assert(dag_wf(m2)) by {
                        assert forall|d: int| 0 <= d < n implies m2[d][d] == 0 by {
                            if m2[d][d] == 1 {
                                assert(c3[d][d] == 1);
                                if d != p && d != c {
                                    assert(mpre[d][d] == 1);
                                }
                            }
                        }
                    }
                    assert(acyclic(m2)) by {
                        assert forall|u: int, v: int|
                            0 <= u < n && 0 <= v < n && #[trigger] m2[u][v] == 1 implies rank[u]
                            < rank[v] by {
                            assert(c3[u][v] == 1);
                            if u == p && v == s as int {
                            } else if u != p && u != c {
                                assert(mpre[u][v] == 1);
                            } else if u == p {
                                assert(mpre[p as int][v] == 1);
                            }
                        }
                        assert(rank.len() == m2.len());
                    }
                    let c1 = cell_set(mpre, p as int, s as int, 1);
                    let c2m = cell_set(c1, p as int, c, 0);
                    lemma_count_all_delta(mpre, c1, p as int, n as int);
                    lemma_row_count_cell(mpre, p as int, s as int, 1, n as int);
                    assert(c1[p as int].len() == n);
                    lemma_count_all_delta(c1, c2m, p as int, n as int);
                    lemma_row_count_cell(c1, p as int, c, 0, n as int);
                    assert(c1[p as int][c] == 1);
                    lemma_count_all_delta(c2m, c3, c, n as int);
                    assert(c3[c] == zero_row(n as int));
                    lemma_row_count_zero(c3, c, n as int);
                    assert(c2m[c] == mpre[c]);
                    lemma_row_count_congr(c2m, mpre, c, n as int);
                    assert(count_all(c3, n as int) <= count_all(mpre, n as int) - 1);
                    lemma_count_all_le(c3, m2, n as int);
                    assert(count_all(m2, n as int) <= count_all(mpre, n as int) - 1);
                    lemma_reaches_step(m0, mpre, m2, es0, c, e);
                }
                cpt = 0;
            } else {
                proof {
                    assert(!fireable(self.dagm(), cpt as int));
                }
                cpt = cpt + 1;
            }
            proof {
                lemma_count_all_nonneg(self.dagm(), n as int);
            }
        }

        let ghost mfin = self.dagm();
        let all = self.verify_all_zero();
        if !all {
            proof {
                assert(stalled(mfin));
                assert(exists|es: Seq<(usize, Bound, Bound)>| bit_reaches(m0, mfin, es)) by {
                    assert(bit_reaches(m0, mfin, entries@));
                }
            }
            return (IntegralSpec::new(), false);
        }
        let ghost es_done = entries@;
        let spec = crate::resolution::assemble_spec(entries, &emitted);
        proof {
            let es = spec.elements@;
            let n_ = n as int;
            assert(exists|k: int|
                0 <= k <= n_ && #[trigger] bit_reaches(m0, mfin, es.subrange(0, k)) && (forall|
                    i: int,
                |
                    k <= i < n_ ==> (#[trigger] es[i]).1 == Bound::Zero && es[i].2 == Bound::One))
                by {
                assert(es.subrange(0, es_done.len() as int) == es_done);
                assert(0 <= es_done.len() <= n_ && bit_reaches(
                    m0,
                    mfin,
                    es.subrange(0, es_done.len() as int),
                ) && (forall|i: int|
                    es_done.len() <= i < n_ ==> (#[trigger] es[i]).1 == Bound::Zero && es[i].2
                        == Bound::One));
            }
        }
        (spec, true)
    }
}

impl Resolver for Graph {
    open spec fn dag(&self) -> Seq<Seq<i32>> {
        self.dagm()
    }

    open spec fn wf(&self) -> bool {
        self.inv()
    }

    proof fn wf_implies_dag_wf(&self) {
    }

    fn resolve(&mut self) -> (r: (IntegralSpec, bool)) {
        self.resolution_adjacence()
    }
}

} // verus!
