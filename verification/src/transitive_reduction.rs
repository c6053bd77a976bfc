//! Transitive reduction of a DAG's adjacency matrix: a topological edge
//! order is computed by in-degree counting with a ready queue (Kahn's
//! algorithm), later-discovered duplicate in-edges of a target are dropped
//! (the first edge reaching a target wins), and the adjacency matrix is
//! rebuilt from the surviving edges.

use vstd::prelude::*;

verus! {

/// The ghost matrix of an executable matrix.
pub open spec fn matv(m: Seq<Vec<i32>>) -> Seq<Seq<i32>> {
    m.map_values(|r: Vec<i32>| r@)
}

/// A well-formed adjacency matrix: square with entries in {0, 1}.
pub open spec fn matrix_wf(m: Seq<Seq<i32>>) -> bool {
    &&& forall|i: int| 0 <= i < m.len() ==> (#[trigger] m[i]).len() == m.len()
    &&& forall|i: int, j: int|
        0 <= i < m.len() && 0 <= j < m.len() ==> (#[trigger] m[i][j]) == 0 || m[i][j] == 1
}

/// The directed edge `u -> v`.
pub open spec fn edge(m: Seq<Seq<i32>>, u: int, v: int) -> bool {
    m[u][v] == 1
}

/// The number of in-edges of `t` from sources below `upto`.
pub open spec fn col_count(m: Seq<Seq<i32>>, t: int, upto: int) -> int
    decreases upto,
{
    if upto <= 0 {
        0
    } else {
        col_count(m, t, upto - 1) + if m[upto - 1][t] == 1 {
            1int
        } else {
            0int
        }
    }
}

/// The edges leaving `u` with targets below `upto`, targets ascending.
pub open spec fn row_edges_upto(m: Seq<Seq<i32>>, u: int, upto: int) -> Seq<(usize, usize)>
    decreases upto,
{
    if upto <= 0 {
        Seq::<(usize, usize)>::empty()
    } else {
        row_edges_upto(m, u, upto - 1) + if m[u][upto - 1] == 1 {
            seq![(u as usize, (upto - 1) as usize)]
        } else {
            Seq::<(usize, usize)>::empty()
        }
    }
}

/// All edges leaving `u`, targets ascending.
pub open spec fn row_edges(m: Seq<Seq<i32>>, u: int) -> Seq<(usize, usize)> {
    row_edges_upto(m, u, m.len() as int)
}

/// In-degrees after paying the edges of `u` with targets below `upto`.
pub open spec fn dec_row_upto(m: Seq<Seq<i32>>, u: int, d: Seq<int>, upto: int) -> Seq<int> {
    Seq::new(d.len(), |t: int| if t < upto && m[u][t] == 1 {
        d[t] - 1
    } else {
        d[t]
    })
}

/// In-degrees after paying all edges of `u`.
pub open spec fn dec_row(m: Seq<Seq<i32>>, u: int, d: Seq<int>) -> Seq<int> {
    dec_row_upto(m, u, d, d.len() as int)
}

/// The targets of `u` (below `upto`, ascending) whose in-degree reaches
/// zero when `u`'s edges are paid.
pub open spec fn new_zeros_upto(m: Seq<Seq<i32>>, u: int, d: Seq<int>, upto: int) -> Seq<usize>
    decreases upto,
{
    if upto <= 0 {
        Seq::<usize>::empty()
    } else {
        new_zeros_upto(m, u, d, upto - 1) + if m[u][upto - 1] == 1 && d[upto - 1] == 1 {
            seq![(upto - 1) as usize]
        } else {
            Seq::<usize>::empty()
        }
    }
}

pub open spec fn new_zeros(m: Seq<Seq<i32>>, u: int, d: Seq<int>) -> Seq<usize> {
    new_zeros_upto(m, u, d, d.len() as int)
}

/// The initial in-degrees of all nodes.
pub open spec fn init_indeg(m: Seq<Seq<i32>>) -> Seq<int> {
    Seq::new(m.len(), |t: int| col_count(m, t, m.len() as int))
}

/// The nodes below `upto` with in-degree zero, ascending.
pub open spec fn init_queue_upto(m: Seq<Seq<i32>>, upto: int) -> Seq<usize>
    decreases upto,
{
    if upto <= 0 {
        Seq::<usize>::empty()
    } else {
        init_queue_upto(m, upto - 1) + if col_count(m, upto - 1, m.len() as int) == 0 {
            seq![(upto - 1) as usize]
        } else {
            Seq::<usize>::empty()
        }
    }
}

pub open spec fn init_queue(m: Seq<Seq<i32>>) -> Seq<usize> {
    init_queue_upto(m, m.len() as int)
}

/// Kahn's algorithm as a recursion over the ready queue: pop the head,
/// record its out-edges in target order, pay its targets' in-degrees and
/// enqueue those that reach zero. The fuel bounds the number of pops; each
/// node is enqueued at most once, so `m.len()` suffices.
pub open spec fn kahn_rec(
    m: Seq<Seq<i32>>,
    queue: Seq<usize>,
    d: Seq<int>,
    fuel: nat,
) -> Seq<(usize, usize)>
    decreases fuel,
{
    if fuel == 0 || queue.len() == 0 {
        Seq::<(usize, usize)>::empty()
    } else {
        let u = queue[0] as int;
        row_edges(m, u) + kahn_rec(
            m,
            queue.drop_first() + new_zeros(m, u, d),
            dec_row(m, u, d),
            (fuel - 1) as nat,
        )
    }
}

/// The edge sequence Kahn's algorithm discovers on `m`.
pub open spec fn kahn_spec(m: Seq<Seq<i32>>) -> Seq<(usize, usize)> {
    kahn_rec(m, init_queue(m), init_indeg(m), m.len())
}

/// An earlier edge of the order already reaches the target of edge `i`.
pub open spec fn earlier_same_target(ord: Seq<(usize, usize)>, i: int) -> bool {
    exists|j: int| 0 <= j < i && (#[trigger] ord[j]).1 == ord[i].1
}

/// The surviving edges among the first `upto`: the first edge discovered
/// for each target wins, later edges to the same target are redundant.
pub open spec fn keep_first_upto(ord: Seq<(usize, usize)>, upto: int) -> Seq<(usize, usize)>
    decreases upto,
{
    if upto <= 0 {
        Seq::<(usize, usize)>::empty()
    } else {
        keep_first_upto(ord, upto - 1) + if earlier_same_target(ord, upto - 1) {
            Seq::<(usize, usize)>::empty()
        } else {
            seq![ord[upto - 1]]
        }
    }
}

/// The surviving edges of a discovery order.
pub open spec fn keep_first(ord: Seq<(usize, usize)>) -> Seq<(usize, usize)> {
    keep_first_upto(ord, ord.len() as int)
}

/// Whether an edge list holds the pair `(i, j)`.
pub open spec fn contains_pair(edges: Seq<(usize, usize)>, i: int, j: int) -> bool {
    exists|k: int| 0 <= k < edges.len() && (#[trigger] edges[k]) == ((i as usize, j as usize))
}

/// The n-by-n matrix with a 1 exactly at the pairs of `edges`.
pub open spec fn build_matrix_spec(n: nat, edges: Seq<(usize, usize)>) -> Seq<Seq<i32>> {
    Seq::new(n, |i: int| Seq::new(n, |j: int| if contains_pair(edges, i, j) {
        1i32
    } else {
        0i32
    }))
}

/// The whole transitive-reduction pipeline on a matrix.
pub open spec fn tr_pipeline(m: Seq<Seq<i32>>) -> Seq<Seq<i32>> {
    build_matrix_spec(m.len(), keep_first(kahn_spec(m)))
}

/// The view of a vector of small counters as mathematical integers.
pub open spec fn ints(s: Seq<usize>) -> Seq<int> {
    s.map_values(|x: usize| x as int)
}

/// The in-edges of `t` from sources below `upto` that are not in `srcs`.
pub open spec fn unpaid(m: Seq<Seq<i32>>, srcs: Seq<usize>, t: int, upto: int) -> int
    decreases upto,
{
    if upto <= 0 {
        0
    } else {
        unpaid(m, srcs, t, upto - 1) + if m[upto - 1][t] == 1 && !srcs.contains(
            ((upto - 1) as usize),
        ) {
            1int
        } else {
            0int
        }
    }
}

pub proof fn lemma_unpaid_empty(m: Seq<Seq<i32>>, t: int, upto: int)
    ensures
        unpaid(m, Seq::<usize>::empty(), t, upto) == col_count(m, t, upto),
    decreases upto,
{
    if upto > 0 {
        lemma_unpaid_empty(m, t, upto - 1);
    }
}

pub proof fn lemma_unpaid_nonneg(m: Seq<Seq<i32>>, srcs: Seq<usize>, t: int, upto: int)
    ensures
        unpaid(m, srcs, t, upto) >= 0,
    decreases upto,
{
    if upto > 0 {
        lemma_unpaid_nonneg(m, srcs, t, upto - 1);
    }
}

pub proof fn lemma_unpaid_pos(m: Seq<Seq<i32>>, srcs: Seq<usize>, t: int, u: int, upto: int)
    requires
        0 <= u < upto,
        m[u][t] == 1,
        !srcs.contains((u as usize)),
    ensures
        unpaid(m, srcs, t, upto) >= 1,
    decreases upto,
{
    lemma_unpaid_nonneg(m, srcs, t, u);
    if u == upto - 1 {
    } else {
        lemma_unpaid_pos(m, srcs, t, u, upto - 1);
    }
}

pub proof fn lemma_contains_push<T>(s: Seq<T>, x: T, y: T)
    ensures
        s.push(x).contains(y) <==> (s.contains(y) || y == x),
{
    if s.push(x).contains(y) {
        let k = choose|k: int| 0 <= k < s.push(x).len() && s.push(x)[k] == y;
        if k < s.len() {
            assert(s[k] == y);
        }
    }
    if s.contains(y) {
        let k = choose|k: int| 0 <= k < s.len() && s[k] == y;
        assert(s.push(x)[k] == y);
    }
    if y == x {
        assert(s.push(x)[s.len() as int] == y);
    }
}

pub proof fn lemma_unpaid_push(m: Seq<Seq<i32>>, srcs: Seq<usize>, u: usize, t: int, upto: int)
    requires
        !srcs.contains(u),
        upto <= usize::MAX,
    ensures
        unpaid(m, srcs.push(u), t, upto) == unpaid(m, srcs, t, upto) - if m[u as int][t] == 1 && (
        u as int) < upto {
            1int
        } else {
            0int
        },
    decreases upto,
{
    if upto > 0 {
        lemma_unpaid_push(m, srcs, u, t, upto - 1);
        lemma_contains_push(srcs, u, ((upto - 1) as usize));
        if upto - 1 == u as int {
            assert(((upto - 1) as usize) == u);
        }
    }
}

/// A duplicate-free sequence of values below `n` has at most `n` elements.
pub proof fn lemma_distinct_bounded(s: Seq<usize>, n: nat)
    requires
        s.no_duplicates(),
        forall|i: int| 0 <= i < s.len() ==> (#[trigger] s[i]) < n,
    ensures
        s.len() <= n,
{
    let si = s.map_values(|x: usize| x as int);
    assert(si.no_duplicates()) by {
        assert(forall|i: int, j: int|
            0 <= i < j < si.len() ==> si[i] == s[i] as int && si[j] == s[j] as int && s[i] != s[j]);
    }
    si.unique_seq_to_set();
    assert(si.to_set().subset_of(vstd::set_lib::set_int_range(0, n as int))) by {
        assert forall|x: int| si.to_set().contains(x) implies vstd::set_lib::set_int_range(
            0,
            n as int,
        ).contains(x) by {
            let k = choose|k: int| 0 <= k < si.len() && si[k] == x;
            assert(s[k] < n);
        }
    }
    vstd::set_lib::lemma_int_range(0, n as int);
    vstd::set_lib::lemma_len_subset(si.to_set(), vstd::set_lib::set_int_range(0, n as int));
}

/// Generates the topological edge order of the matrix: in-degrees are
/// counted, sources with in-degree zero form the ready queue, and popping a
/// source discovers its out-edges in target order, enqueueing every target
/// whose in-degree reaches zero.
pub fn create_ordre_topologique(matrice: Vec<Vec<i32>>) -> (r: Vec<(usize, usize)>)
    requires
        matrix_wf(matv(matrice@)),
    ensures
        r@ == kahn_spec(matv(matrice@)),
{
    let ghost m = matv(matrice@);
    let n = matrice.len();

    // Initial in-degrees.
    let mut in_degree: Vec<usize> = Vec::new();
    let mut t: usize = 0;
    while t < n
        invariant
            n == matrice@.len(),
            m == matv(matrice@),
            matrix_wf(m),
            0 <= t <= n,
            in_degree@.len() == t,
            forall|q: int| 0 <= q < t ==> ints(in_degree@)[q] == col_count(m, q, n as int),
        decreases n - t,
    {
        let mut c: usize = 0;
        let mut i: usize = 0;
        while i < n
            invariant
                n == matrice@.len(),
                m == matv(matrice@),
                matrix_wf(m),
                t < n,
                0 <= i <= n,
                c as int == col_count(m, t as int, i as int),
                c <= i,
            decreases n - i,
        {
            proof {
                assert(m[i as int] == matrice@[i as int]@);
                assert(m[i as int].len() == n);
            }
            if matrice[i][t] == 1 {
                c = c + 1;
            }
            i = i + 1;
        }
        in_degree.push(c);
        t = t + 1;
    }
    proof {
        assert(ints(in_degree@) =~= init_indeg(m));
    }

    // Ready queue of sources with in-degree zero.
    let mut queue: Vec<usize> = Vec::new();
    let mut s: usize = 0;
    while s < n
        invariant
            n == matrice@.len(),
            m == matv(matrice@),
            m.len() == n,
            matrix_wf(m),
            in_degree@.len() == n,
            ints(in_degree@) == init_indeg(m),
            0 <= s <= n,
            queue@ == init_queue_upto(m, s as int),
            forall|p: int| 0 <= p < queue@.len() ==> (#[trigger] queue@[p]) < n,
            queue@.no_duplicates(),
            forall|q: usize|
                q < n ==> (queue@.contains(q) <==> ((q as int) < s && ints(in_degree@)[q as int]
                    == 0)),
        decreases n - s,
    {
        let ghost q0 = queue@;
        proof {
            assert(ints(in_degree@)[s as int] == col_count(m, s as int, m.len() as int));
        }
        if in_degree[s] == 0 {
            queue.push(s);
            proof {
                assert(queue@ =~= init_queue_upto(m, s as int) + seq![s]);
                assert(queue@ =~= init_queue_upto(m, s as int + 1));
                assert(queue@.no_duplicates()) by {
                    assert(!q0.contains(s));
                    assert(forall|p: int| 0 <= p < q0.len() ==> queue@[p] == q0[p]);
                    assert(queue@.last() == s);
                }
                assert forall|q: usize| q < n implies (queue@.contains(q) <==> ((q as int) < s + 1
                    && ints(in_degree@)[q as int] == 0)) by {
                    lemma_contains_push(q0, s, q);
                }
            }
        } else {
            proof {
                assert(queue@ =~= init_queue_upto(m, s as int + 1));
                assert forall|q: usize| q < n implies (queue@.contains(q) <==> ((q as int) < s + 1
                    && ints(in_degree@)[q as int] == 0)) by {
                }
            }
        }
        s = s + 1;
    }
    proof {
        assert(queue@ == init_queue(m));
        lemma_distinct_bounded(queue@, n as nat);
    }

    // Pop sources, discover their out-edges, enqueue new zero in-degrees.
    let mut ordre: Vec<(usize, usize)> = Vec::new();
    let mut head: usize = 0;
    proof {
        assert(queue@.take(0) =~= Seq::<usize>::empty());
        assert forall|q: int| 0 <= q < n implies ints(in_degree@)[q] == unpaid(
            m,
            queue@.take(0),
            q,
            n as int,
        ) by {
            lemma_unpaid_empty(m, q, n as int);
        }
        assert(queue@.skip(0) =~= queue@);
        assert(ordre@ + kahn_rec(m, queue@, ints(in_degree@), n as nat) =~= kahn_rec(
            m,
            init_queue(m),
            init_indeg(m),
            m.len(),
        ));
    }
    while head < queue.len()
        invariant
            n == matrice@.len(),
            m == matv(matrice@),
            m.len() == n,
            matrix_wf(m),
            in_degree@.len() == n,
            0 <= head <= queue@.len(),
            queue@.len() <= n,
            queue@.no_duplicates(),
            forall|p: int| 0 <= p < queue@.len() ==> (#[trigger] queue@[p]) < n,
            forall|q: int|
                0 <= q < n ==> ints(in_degree@)[q] == unpaid(m, queue@.take(head as int), q, n as int),
            forall|q: usize| q < n ==> (queue@.contains(q) <==> ints(in_degree@)[q as int] == 0),
            kahn_spec(m) == ordre@ + kahn_rec(
                m,
                queue@.skip(head as int),
                ints(in_degree@),
                (n - head) as nat,
            ),
        decreases n - head,
    {
        let u = queue[head];
        let ghost popped = queue@.take(head as int);
        let ghost q0 = queue@;
        let ghost d0 = ints(in_degree@);
        let ghost ord0 = ordre@;
        proof {
            assert(!popped.contains(u)) by {
                if popped.contains(u) {
                    let k = choose|k: int| 0 <= k < head && q0.take(head as int)[k] == u;
                    assert(q0[k] == q0[head as int]);
                }
            }
            // Unfold one step of the spec recursion.
            assert(q0.skip(head as int)[0] == u);
            assert(q0.skip(head as int).len() > 0);
            assert((n - head) as nat > 0);
            assert(kahn_rec(m, q0.skip(head as int), d0, (n - head) as nat) == row_edges(
                m,
                u as int,
            ) + kahn_rec(
                m,
                q0.skip(head as int).drop_first() + new_zeros(m, u as int, d0),
                dec_row(m, u as int, d0),
                (n - head - 1) as nat,
            ));
            assert(q0.skip(head as int).drop_first() =~= q0.skip(head as int + 1));
        }
        head = head + 1;
        proof {
            assert(ordre@ =~= ord0 + row_edges_upto(m, u as int, 0));
            assert(queue@ =~= q0 + new_zeros_upto(m, u as int, d0, 0));
            assert(ints(in_degree@) =~= dec_row_upto(m, u as int, d0, 0));
        }
        let mut j: usize = 0;
        while j < n
            invariant
                n == matrice@.len(),
                m == matv(matrice@),
                m.len() == n,
                matrix_wf(m),
                in_degree@.len() == n,
                d0.len() == n,
                u < n,
                0 <= j <= n,
                0 < head <= q0.len(),
                q0.len() <= n,
                popped == q0.take(head - 1),
                u == q0[head - 1],
                q0.no_duplicates(),
                !popped.contains(u),
                forall|p: int| 0 <= p < q0.len() ==> (#[trigger] q0[p]) < n,
                ordre@ == ord0 + row_edges_upto(m, u as int, j as int),
                queue@ == q0 + new_zeros_upto(m, u as int, d0, j as int),
                ints(in_degree@) == dec_row_upto(m, u as int, d0, j as int),
                forall|q: int| 0 <= q < n ==> d0[q] == unpaid(m, popped, q, n as int),
                forall|q: usize| q < n ==> (queue@.contains(q) <==> ints(in_degree@)[q as int] == 0),
                queue@.no_duplicates(),
                forall|p: int| 0 <= p < queue@.len() ==> (#[trigger] queue@[p]) < n,
            decreases n - j,
        {
            let ghost dcur = ints(in_degree@);
            let ghost qcur = queue@;
            proof {
                assert(m[u as int] == matrice@[u as int]@);
                assert(m[u as int].len() == n);
                assert(dcur[j as int] == d0[j as int]);
            }
            if matrice[u][j] == 1 {
                ordre.push((u, j));
                proof {
                    assert(ordre@ =~= ord0 + row_edges_upto(m, u as int, j as int + 1));
                    // The in-degree about to be paid is at least one.
                    assert(dcur[j as int] == d0[j as int]);
                    lemma_unpaid_pos(m, popped, j as int, u as int, n as int);
                }
                let dj = in_degree[j];
                in_degree.set(j, dj - 1);
                proof {
                    assert forall|t: int| 0 <= t < n implies ints(in_degree@)[t] == dec_row_upto(
                        m,
                        u as int,
                        d0,
                        j as int + 1,
                    )[t] by {
                        if t == j as int {
                            assert(in_degree@[t] == dj - 1);
                            assert(dj as int == d0[t]);
                        } else {
                            assert(ints(in_degree@)[t] == dcur[t]);
                        }
                    }
                    assert(ints(in_degree@) =~= dec_row_upto(m, u as int, d0, j as int + 1));
                }
                if in_degree[j] == 0 {
                    proof {
                        assert(dcur[j as int] == 1);
                        assert(!qcur.contains(j));
                    }
                    queue.push(j);
                    proof {
                        assert(queue@ =~= q0 + new_zeros_upto(m, u as int, d0, j as int + 1));
                        assert(queue@.no_duplicates()) by {
                            assert(forall|p: int| 0 <= p < qcur.len() ==> queue@[p] == qcur[p]);
                            assert(queue@.last() == j);
                        }
                        assert forall|q: usize| q < n implies (queue@.contains(q) <==> ints(
                            in_degree@,
                        )[q as int] == 0) by {
                            lemma_contains_push(qcur, j, q);
                            if q != j {
                                assert(ints(in_degree@)[q as int] == dcur[q as int]);
                            }
                        }
                    }
                } else {
                    proof {
                        assert(queue@ =~= q0 + new_zeros_upto(m, u as int, d0, j as int + 1));
                        assert forall|q: usize| q < n implies (queue@.contains(q) <==> ints(
                            in_degree@,
                        )[q as int] == 0) by {
                            if q != j {
                                assert(ints(in_degree@)[q as int] == dcur[q as int]);
                            }
                        }
                    }
                }
            } else {
                proof {
                    assert(ordre@ =~= ord0 + row_edges_upto(m, u as int, j as int + 1));
                    assert(queue@ =~= q0 + new_zeros_upto(m, u as int, d0, j as int + 1));
                    assert(ints(in_degree@) =~= dec_row_upto(m, u as int, d0, j as int + 1));
                }
            }
            j = j + 1;
        }
        proof {
            // The row is fully processed: reconcile with the spec step.
            assert(row_edges_upto(m, u as int, n as int) == row_edges(m, u as int));
            assert(dec_row_upto(m, u as int, d0, n as int) =~= dec_row(m, u as int, d0)) by {
                assert(d0.len() == n);
            }
            assert(new_zeros_upto(m, u as int, d0, n as int) == new_zeros(m, u as int, d0)) by {
                assert(d0.len() == n);
            }
            assert(queue@.skip(head as int) =~= q0.skip(head as int) + new_zeros(m, u as int, d0));
            assert(queue@.take(head as int) =~= popped.push(u)) by {
                assert(head - 1 < q0.len());
            }
            // In-degrees now reflect `u` joining the paid sources.
            assert forall|q: int| 0 <= q < n implies ints(in_degree@)[q] == unpaid(
                m,
                queue@.take(head as int),
                q,
                n as int,
            ) by {
                lemma_unpaid_push(m, popped, u, q, n as int);
            }
            lemma_distinct_bounded(queue@, n as nat);
        }
    }
    proof {
        assert(queue@.skip(head as int).len() == 0);
        assert(ordre@ + kahn_rec(m, queue@.skip(head as int), ints(in_degree@), (n - head) as nat)
            =~= ordre@);
    }
    ordre
}

/// Whether the edge list holds the pair `(i, j)`.
fn contains_edge(edges: &Vec<(usize, usize)>, i: usize, j: usize) -> (r: bool)
    ensures
        r == contains_pair(edges@, i as int, j as int),
{
    let n = edges.len();
    let mut k: usize = 0;
    while k < n
        invariant
            n == edges@.len(),
            0 <= k <= n,
            forall|p: int| 0 <= p < k ==> (#[trigger] edges@[p]) != ((i, j)),
        decreases n - k,
    {
        let (a, b) = edges[k];
        if a == i && b == j {
            proof {
                assert(edges@[k as int] == ((i, j)));
            }
            return true;
        }
        k = k + 1;
    }
    false
}

/// Builds the adjacency matrix with a 1 at every pair of `edges`, ignoring
/// pairs outside the matrix.
fn build_matrix(length: usize, edges: &Vec<(usize, usize)>) -> (r: Vec<Vec<i32>>)
    ensures
        matv(r@) == build_matrix_spec(length as nat, edges@),
        matrix_wf(matv(r@)),
{
    let mut rows: Vec<Vec<i32>> = Vec::new();
    let mut i: usize = 0;
    while i < length
        invariant
            0 <= i <= length,
            rows@.len() == i,
            forall|p: int|
                0 <= p < i ==> (#[trigger] rows@[p])@ == build_matrix_spec(
                    length as nat,
                    edges@,
                )[p],
        decreases length - i,
    {
        let mut row: Vec<i32> = Vec::new();
        let mut j: usize = 0;
        while j < length
            invariant
                0 <= j <= length,
                i < length,
                row@.len() == j,
                forall|q: int|
                    0 <= q < j ==> (#[trigger] row@[q]) == build_matrix_spec(
                        length as nat,
                        edges@,
                    )[i as int][q],
            decreases length - j,
        {
            if contains_edge(edges, i, j) {
                row.push(1);
            } else {
                row.push(0);
            }
            j = j + 1;
        }
        proof {
            assert(row@ =~= build_matrix_spec(length as nat, edges@)[i as int]);
        }
        rows.push(row);
        i = i + 1;
    }
    proof {
        assert(matv(rows@) =~= build_matrix_spec(length as nat, edges@));
    }
    rows
}

/// Keeps, for each target, only its first-discovered in-edge: a later
/// duplicate path to an already-reached target is redundant.
pub fn transitive_reduction_topologique(ordre_topologique: &Vec<(usize, usize)>) -> (r: Vec<
    (usize, usize),
>)
    ensures
        r@ == keep_first(ordre_topologique@),
{
    let ghost ord = ordre_topologique@;
    let n = ordre_topologique.len();
    let mut r: Vec<(usize, usize)> = Vec::new();
    let mut i: usize = 0;
    while i < n
        invariant
            n == ord.len(),
            ord == ordre_topologique@,
            0 <= i <= n,
            r@ == keep_first_upto(ord, i as int),
        decreases n - i,
    {
        let (_, target) = ordre_topologique[i];
        let mut dup = false;
        let mut j: usize = 0;
        while j < i
            invariant
                n == ord.len(),
                ord == ordre_topologique@,
                0 <= j <= i < n,
                target == ord[i as int].1,
                dup == exists|p: int| 0 <= p < j && (#[trigger] ord[p]).1 == ord[i as int].1,
            decreases i - j,
        {
            if ordre_topologique[j].1 == target {
                proof {
                    assert((ord[j as int]).1 == ord[i as int].1);
                }
                dup = true;
            }
            j = j + 1;
        }
        if !dup {
            let e = ordre_topologique[i];
            r.push(e);
            proof {
                assert(r@ =~= keep_first_upto(ord, i as int) + seq![ord[i as int]]);
            }
        }
        i = i + 1;
    }
    r
}

/// Rebuilds the adjacency matrix of the surviving edges. Every pair must
/// name vertices of the graph.
pub fn apply_transitive_reduction(length: usize, to_remove: Vec<(usize, usize)>) -> (r: Vec<
    Vec<i32>,
>)
    requires
        forall|k: int|
            0 <= k < to_remove@.len() ==> (#[trigger] to_remove@[k]).0 < length
                && to_remove@[k].1 < length,
    ensures
        matv(r@) == build_matrix_spec(length as nat, to_remove@),
        matrix_wf(matv(r@)),
{
    build_matrix(length, &to_remove)
}

/// One pass of the Floyd-Warshall-style reduction over targets below `j`,
/// for fixed source `i` and intermediate `k`, on the running matrix.
pub open spec fn fw_j(m: Seq<Seq<i32>>, k: int, i: int, j: int) -> Seq<Seq<i32>>
    decreases j,
{
    if j <= 0 {
        m
    } else {
        let m2 = fw_j(m, k, i, j - 1);
        if m2[i][k] == 1 && m2[k][j - 1] == 1 {
            m2.update(i, m2[i].update(j - 1, 0))
        } else {
            m2
        }
    }
}

/// The passes for sources below `i`, fixed intermediate `k`.
pub open spec fn fw_i(m: Seq<Seq<i32>>, k: int, i: int, n: int) -> Seq<Seq<i32>>
    decreases i,
{
    if i <= 0 {
        m
    } else {
        fw_j(fw_i(m, k, i - 1, n), k, i - 1, n)
    }
}

/// The passes for intermediates below `k`.
pub open spec fn fw_k(m: Seq<Seq<i32>>, k: int, n: int) -> Seq<Seq<i32>>
    decreases k,
{
    if k <= 0 {
        m
    } else {
        fw_i(fw_k(m, k - 1, n), k - 1, n, n)
    }
}

/// The whole in-place Floyd-Warshall-style reduction.
pub open spec fn fw_spec(m: Seq<Seq<i32>>) -> Seq<Seq<i32>> {
    fw_k(m, m.len() as int, m.len() as int)
}

/// A mutable borrow of one row of a matrix.
fn row_mut(v: &mut Vec<Vec<i32>>, i: usize) -> (r: &mut Vec<i32>)
    requires
        i < old(v)@.len(),
    ensures
        *r == old(v)@[i as int],
        final(v)@ == old(v)@.update(i as int, *final(r)),
{
    &mut v[i]
}

/// Zeroes one cell of a matrix.
fn clear_cell(mat: &mut Vec<Vec<i32>>, i: usize, j: usize)
    requires
        i < old(mat)@.len(),
        j < old(mat)@[i as int]@.len(),
    ensures
        matv(final(mat)@) == matv(old(mat)@).update(
            i as int,
            matv(old(mat)@)[i as int].update(j as int, 0),
        ),
        final(mat)@.len() == old(mat)@.len(),
{
    let row = row_mut(mat, i);
    row.set(j, 0);
    proof {
        assert(matv(mat@) =~= matv(old(mat)@).update(
            i as int,
            matv(old(mat)@)[i as int].update(j as int, 0),
        ));
    }
}

/// Removes every edge `i -> j` for which a path `i -> k -> j` exists in the
/// running matrix, scanning intermediates, sources and targets in ascending
/// order and updating in place.
pub fn transitive_reduction_using_floyd_warshall(matrice: Vec<Vec<i32>>) -> (r: Vec<Vec<i32>>)
    requires
        forall|i: int|
            0 <= i < matrice@.len() ==> (#[trigger] matv(matrice@)[i]).len() == matrice@.len(),
    ensures
        matv(r@) == fw_spec(matv(matrice@)),
{
    let ghost m = matv(matrice@);
    let n = matrice.len();
    let mut reduction: Vec<Vec<i32>> = Vec::new();
    let mut c: usize = 0;
    while c < n
        invariant
            n == matrice@.len(),
            m == matv(matrice@),
            0 <= c <= n,
            reduction@.len() == c,
            forall|p: int| 0 <= p < c ==> (#[trigger] reduction@[p])@ == m[p],
        decreases n - c,
    {
        let row = matrice[c].clone();
        proof {
            assert(row@ =~= m[c as int]);
        }
        reduction.push(row);
        c = c + 1;
    }
    proof {
        assert(matv(reduction@) =~= m);
    }
    let mut k: usize = 0;
    while k < n
        invariant
            n == matrice@.len(),
            m == matv(matrice@),
            m.len() == n,
            forall|p: int| 0 <= p < n ==> (#[trigger] m[p]).len() == n,
            0 <= k <= n,
            reduction@.len() == n,
            forall|p: int| 0 <= p < n ==> (#[trigger] reduction@[p])@.len() == n,
            matv(reduction@) == fw_k(m, k as int, n as int),
        decreases n - k,
    {
        let mut i: usize = 0;
        proof {
            assert(fw_i(fw_k(m, k as int, n as int), k as int, 0, n as int) == fw_k(
                m,
                k as int,
                n as int,
            ));
        }
        while i < n
            invariant
                n == matrice@.len(),
                m == matv(matrice@),
                m.len() == n,
                k < n,
                0 <= i <= n,
                reduction@.len() == n,
                forall|p: int| 0 <= p < n ==> (#[trigger] reduction@[p])@.len() == n,
                matv(reduction@) == fw_i(fw_k(m, k as int, n as int), k as int, i as int, n as int),
            decreases n - i,
        {
            let mut j: usize = 0;
            proof {
                assert(fw_j(matv(reduction@), k as int, i as int, 0) == matv(reduction@));
            }
            let ghost base = matv(reduction@);
            while j < n
                invariant
                    n == matrice@.len(),
                    k < n,
                    i < n,
                    0 <= j <= n,
                    reduction@.len() == n,
                    forall|p: int| 0 <= p < n ==> (#[trigger] reduction@[p])@.len() == n,
                    matv(reduction@) == fw_j(base, k as int, i as int, j as int),
                decreases n - j,
            {
                let ghost pre = reduction@;
                if reduction[i][k] == 1 && reduction[k][j] == 1 {
                    proof {
                        assert(matv(reduction@)[i as int] == reduction@[i as int]@);
                        assert(matv(reduction@)[k as int] == reduction@[k as int]@);
                    }
                    clear_cell(&mut reduction, i, j);
                    proof {
                        assert forall|p: int| 0 <= p < n implies (#[trigger] reduction@[p])@.len()
                            == n by {
                            assert(reduction@[p]@ == matv(reduction@)[p]);
                            if p != i as int {
                                assert(matv(reduction@)[p] == matv(pre)[p]);
                                assert(matv(pre)[p] == pre[p]@);
                            }
                        }
                    }
                } else {
                    proof {
                        assert(matv(reduction@)[i as int] == reduction@[i as int]@);
                        assert(matv(reduction@)[k as int] == reduction@[k as int]@);
                    }
                }
                j = j + 1;
            }
            proof {
                assert(matv(reduction@) == fw_i(
                    fw_k(m, k as int, n as int),
                    k as int,
                    i as int + 1,
                    n as int,
                ));
            }
            i = i + 1;
        }
        k = k + 1;
    }
    reduction
}

/// Converts a topological edge order back to an adjacency matrix, ignoring
/// pairs outside the matrix.
pub fn ordre_topologique_to_matrice_adj(
    ordre_topologique: Vec<(usize, usize)>,
    nombre_noeuds: usize,
) -> (r: Vec<Vec<i32>>)
    ensures
        matv(r@) == build_matrix_spec(nombre_noeuds as nat, ordre_topologique@),
        matrix_wf(matv(r@)),
{
    build_matrix(nombre_noeuds, &ordre_topologique)
}


/// The nodes Kahn's recursion pops, in order.
pub open spec fn kahn_pops(m: Seq<Seq<i32>>, queue: Seq<usize>, d: Seq<int>, fuel: nat) -> Seq<
    usize,
>
    decreases fuel,
{
    if fuel == 0 || queue.len() == 0 {
        Seq::<usize>::empty()
    } else {
        let u = queue[0] as int;
        seq![queue[0]] + kahn_pops(
            m,
            queue.drop_first() + new_zeros(m, u, d),
            dec_row(m, u, d),
            (fuel - 1) as nat,
        )
    }
}

/// A positive unpaid count exhibits an unpaid in-edge.
pub proof fn lemma_unpaid_pos_witness(m: Seq<Seq<i32>>, srcs: Seq<usize>, t: int, upto: int)
    requires
        unpaid(m, srcs, t, upto) > 0,
        upto <= usize::MAX,
    ensures
        exists|w: usize|
            (w as int) < upto && m[w as int][t] == 1 && !srcs.contains(w),
    decreases upto,
{
    if upto > 0 {
        if m[upto - 1][t] == 1 && !srcs.contains(((upto - 1) as usize)) {
            let w = (upto - 1) as usize;
            assert((w as int) < upto && m[w as int][t] == 1 && !srcs.contains(w));
        } else {
            lemma_unpaid_pos_witness(m, srcs, t, upto - 1);
            let w = choose|w: usize|
                (w as int) < upto - 1 && m[w as int][t] == 1 && !srcs.contains(w);
            assert((w as int) < upto && m[w as int][t] == 1 && !srcs.contains(w));
        }
    }
}

/// The enqueued targets: each has an edge from `u`, in-degree one, targets
/// ascending and distinct.
pub proof fn lemma_new_zeros_facts(m: Seq<Seq<i32>>, u: int, d: Seq<int>, upto: int)
    requires
        0 <= upto <= usize::MAX,
    ensures
        forall|k: int|
            0 <= k < new_zeros_upto(m, u, d, upto).len() ==> {
                let z = #[trigger] new_zeros_upto(m, u, d, upto)[k];
                &&& (z as int) < upto
                &&& m[u][z as int] == 1
                &&& d[z as int] == 1
            },
        forall|k1: int, k2: int|
            0 <= k1 < k2 < new_zeros_upto(m, u, d, upto).len() ==> (#[trigger] new_zeros_upto(
                m,
                u,
                d,
                upto,
            )[k1]) != (#[trigger] new_zeros_upto(m, u, d, upto)[k2]),
    decreases upto,
{
    if upto > 0 {
        lemma_new_zeros_facts(m, u, d, upto - 1);
        let prev = new_zeros_upto(m, u, d, upto - 1);
        let cur = new_zeros_upto(m, u, d, upto);
        assert forall|k: int| #![trigger cur[k]] 0 <= k < cur.len() implies {
            let z = cur[k];
            &&& (z as int) < upto
            &&& m[u][z as int] == 1
            &&& d[z as int] == 1
        } by {
            if k < prev.len() {
                assert(cur[k] == prev[k]);
            } else {
                assert(cur[k] == ((upto - 1) as usize));
            }
        }
        assert forall|k1: int, k2: int| 0 <= k1 < k2 < cur.len() implies (#[trigger] cur[k1]) != (
        #[trigger] cur[k2]) by {
            if k2 < prev.len() {
                assert(cur[k1] == prev[k1] && cur[k2] == prev[k2]);
            } else {
                assert(cur[k1] == prev[k1]);
                assert((prev[k1] as int) < upto - 1);
                assert(cur[k2] == ((upto - 1) as usize));
            }
        }
    }
}

/// Every edge of a row is discovered by its scan.
pub proof fn lemma_row_edges_contains(m: Seq<Seq<i32>>, u: int, v: int, upto: int)
    requires
        0 <= v < upto,
        m[u][v] == 1,
        0 <= u <= usize::MAX,
        upto <= usize::MAX,
    ensures
        contains_pair(row_edges_upto(m, u, upto), u, v),
    decreases upto,
{
    if v == upto - 1 {
        let r = row_edges_upto(m, u, upto);
        assert(r[r.len() - 1] == ((u as usize, v as usize)));
    } else {
        lemma_row_edges_contains(m, u, v, upto - 1);
        let prev = row_edges_upto(m, u, upto - 1);
        let k = choose|k: int| 0 <= k < prev.len() && prev[k] == ((u as usize, v as usize));
        assert(row_edges_upto(m, u, upto)[k] == prev[k]);
    }
}

/// A row scan's pairs are pairwise distinct: targets ascend.
pub proof fn lemma_row_edges_distinct(m: Seq<Seq<i32>>, u: int, upto: int)
    requires
        0 <= upto <= usize::MAX,
        0 <= u <= usize::MAX,
    ensures
        forall|k1: int, k2: int|
            0 <= k1 < k2 < row_edges_upto(m, u, upto).len() ==> ((#[trigger] row_edges_upto(
                m,
                u,
                upto,
            )[k1]).1 as int) < ((#[trigger] row_edges_upto(m, u, upto)[k2]).1 as int),
    decreases upto,
{
    if upto > 0 {
        lemma_row_edges_distinct(m, u, upto - 1);
        crate::resolution::lemma_row_edges_sub(m, u, upto - 1);
        let prev = row_edges_upto(m, u, upto - 1);
        let cur = row_edges_upto(m, u, upto);
        assert forall|k1: int, k2: int| 0 <= k1 < k2 < cur.len() implies ((#[trigger] cur[k1]).1
            as int) < ((#[trigger] cur[k2]).1 as int) by {
            if k2 < prev.len() {
                assert(cur[k1] == prev[k1] && cur[k2] == prev[k2]);
            } else {
                assert(cur[k1] == prev[k1]);
                assert(cur[k2] == ((u as usize, (upto - 1) as usize)));
                assert((prev[k1].1 as int) < upto - 1);
            }
        }
    }
}

/// With pairwise distinct targets the filter keeps every edge.
pub proof fn lemma_keep_first_noop(ord: Seq<(usize, usize)>, upto: int)
    requires
        0 <= upto <= ord.len(),
        forall|k1: int, k2: int|
            0 <= k1 < k2 < ord.len() ==> (#[trigger] ord[k1]).1 != (#[trigger] ord[k2]).1,
    ensures
        keep_first_upto(ord, upto) == ord.take(upto),
    decreases upto,
{
    if upto > 0 {
        lemma_keep_first_noop(ord, upto - 1);
        assert(!earlier_same_target(ord, upto - 1)) by {
            if earlier_same_target(ord, upto - 1) {
                let j = choose|j: int| 0 <= j < upto - 1 && (#[trigger] ord[j]).1 == ord[upto - 1].1;
            }
        }
        assert(keep_first_upto(ord, upto) =~= ord.take(upto));
    }
}


/// The ready-queue members of the initial queue: exactly the nodes below
/// `upto` with no in-edges, ascending and distinct.
pub proof fn lemma_init_queue_facts(m: Seq<Seq<i32>>, upto: int)
    requires
        0 <= upto <= usize::MAX,
    ensures
        forall|k: int|
            0 <= k < init_queue_upto(m, upto).len() ==> {
                let z = #[trigger] init_queue_upto(m, upto)[k];
                &&& (z as int) < upto
                &&& col_count(m, z as int, m.len() as int) == 0
            },
        forall|k1: int, k2: int|
            0 <= k1 < k2 < init_queue_upto(m, upto).len() ==> (#[trigger] init_queue_upto(
                m,
                upto,
            )[k1]) != (#[trigger] init_queue_upto(m, upto)[k2]),
        forall|t: usize|
            #![trigger init_queue_upto(m, upto).contains(t)]
            (init_queue_upto(m, upto).contains(t) <==> ((t as int) < upto && col_count(
                m,
                t as int,
                m.len() as int,
            ) == 0)),
    decreases upto,
{
    if upto > 0 {
        lemma_init_queue_facts(m, upto - 1);
        let prev = init_queue_upto(m, upto - 1);
        let cur = init_queue_upto(m, upto);
        assert forall|k: int| #![trigger cur[k]] 0 <= k < cur.len() implies {
            let z = cur[k];
            &&& (z as int) < upto
            &&& col_count(m, z as int, m.len() as int) == 0
        } by {
            if k < prev.len() {
                assert(cur[k] == prev[k]);
            } else {
                assert(cur[k] == ((upto - 1) as usize));
            }
        }
        assert forall|k1: int, k2: int| 0 <= k1 < k2 < cur.len() implies (#[trigger] cur[k1]) != (
        #[trigger] cur[k2]) by {
            if k2 < prev.len() {
                assert(cur[k1] == prev[k1] && cur[k2] == prev[k2]);
            } else {
                assert(cur[k1] == prev[k1]);
                assert((prev[k1] as int) < upto - 1);
                assert(cur[k2] == ((upto - 1) as usize));
            }
        }
        assert forall|t: usize|
            #![trigger cur.contains(t)]
            (cur.contains(t) <==> ((t as int) < upto && col_count(m, t as int, m.len() as int)
                == 0)) by {
            if cur.contains(t) {
                let k = choose|k: int| 0 <= k < cur.len() && cur[k] == t;
                if k < prev.len() {
                    assert(prev[k] == t);
                    assert(prev.contains(t));
                } else {
                    assert(cur[k] == ((upto - 1) as usize));
                }
            }
            if (t as int) < upto && col_count(m, t as int, m.len() as int) == 0 {
                if (t as int) < upto - 1 {
                    assert(prev.contains(t));
                    let k = choose|k: int| 0 <= k < prev.len() && prev[k] == t;
                    assert(cur[k] == t);
                } else {
                    assert(cur[cur.len() - 1] == t);
                }
            }
        }
    }
}

/// One run of Kahn's recursion from a consistent state: the popped nodes
/// are fresh and distinct, every out-edge of a popped node is discovered,
/// every discovered edge leaves a popped node, no edge is discovered
/// twice, and any node the run leaves unpopped still has an unpopped
/// in-neighbour.
pub proof fn lemma_kahn_run(
    m: Seq<Seq<i32>>,
    q: Seq<usize>,
    d: Seq<int>,
    popped: Seq<usize>,
    fuel: nat,
)
    requires
        matrix_wf(m),
        m.len() <= usize::MAX,
        d.len() == m.len(),
        fuel >= m.len() - popped.len(),
        q.no_duplicates(),
        popped.no_duplicates(),
        forall|k: int| 0 <= k < q.len() ==> ((#[trigger] q[k]) as int) < m.len(),
        forall|k: int| 0 <= k < popped.len() ==> ((#[trigger] popped[k]) as int) < m.len(),
        forall|k: int| 0 <= k < q.len() ==> !popped.contains(#[trigger] q[k]),
        forall|t: usize|
            (t as int) < m.len() ==> ((q.contains(t) || popped.contains(t)) <==> unpaid(
                m,
                popped,
                t as int,
                m.len() as int,
            ) == 0),
        forall|t: int| 0 <= t < m.len() ==> d[t] == unpaid(m, popped, t, m.len() as int),
    ensures
        forall|k: int|
            0 <= k < kahn_pops(m, q, d, fuel).len() ==> (((#[trigger] kahn_pops(m, q, d, fuel)[k])
                as int) < m.len() && !popped.contains(kahn_pops(m, q, d, fuel)[k])),
        kahn_pops(m, q, d, fuel).no_duplicates(),
        forall|u: usize, v: usize|
            (u as int) < m.len() && (v as int) < m.len() && m[u as int][v as int] == 1
                && kahn_pops(m, q, d, fuel).contains(u) ==> contains_pair(
                #[trigger] kahn_rec(m, q, d, fuel),
                u as int,
                v as int,
            ),
        forall|k: int|
            0 <= k < kahn_rec(m, q, d, fuel).len() ==> kahn_pops(m, q, d, fuel).contains(
                (#[trigger] kahn_rec(m, q, d, fuel)[k]).0,
            ),
        kahn_rec(m, q, d, fuel).no_duplicates(),
        forall|u: usize|
            (u as int) < m.len() && !popped.contains(u) && !kahn_pops(m, q, d, fuel).contains(u)
                ==> exists|w: usize|
                (w as int) < m.len() && m[w as int][u as int] == 1 && !popped.contains(w)
                    && !kahn_pops(m, q, d, fuel).contains(w),
    decreases fuel,
{
    let n = m.len() as int;
    if q.len() == 0 {
        assert(kahn_pops(m, q, d, fuel) =~= Seq::<usize>::empty());
        assert(kahn_rec(m, q, d, fuel) =~= Seq::<(usize, usize)>::empty());
        assert forall|u: usize|
            (u as int) < n && !popped.contains(u) && !kahn_pops(m, q, d, fuel).contains(u) implies
            exists|w: usize|
                (w as int) < n && m[w as int][u as int] == 1 && !popped.contains(w) && !kahn_pops(
                m,
                q,
                d,
                fuel,
            ).contains(w) by {
            assert(!q.contains(u));
            assert(unpaid(m, popped, u as int, n) != 0);
            lemma_unpaid_nonneg(m, popped, u as int, n);
            lemma_unpaid_pos_witness(m, popped, u as int, n);
            let w = choose|w: usize|
                (w as int) < n && m[w as int][u as int] == 1 && !popped.contains(w);
            assert((w as int) < n && m[w as int][u as int] == 1 && !popped.contains(w)
                && !kahn_pops(m, q, d, fuel).contains(w));
        }
    } else if fuel == 0 {
        // Impossible: the queue's fresh distinct nodes do not fit in an
        // exhausted budget.
        let combined = popped + q;
        assert(combined.no_duplicates()) by {
            assert forall|k1: int, k2: int|
                0 <= k1 < k2 < combined.len() implies combined[k1] != combined[k2] by {
                if k1 < popped.len() && k2 >= popped.len() {
                    assert(combined[k1] == popped[k1]);
                    assert(combined[k2] == q[k2 - popped.len()]);
                    assert(!popped.contains(q[k2 - popped.len()]));
                    if popped[k1] == q[k2 - popped.len()] {
                        assert(popped.contains(q[k2 - popped.len()]));
                    }
                } else if k1 >= popped.len() {
                    assert(combined[k1] == q[k1 - popped.len()]);
                    assert(combined[k2] == q[k2 - popped.len()]);
                } else {
                    assert(combined[k1] == popped[k1] && combined[k2] == popped[k2]);
                }
            }
        }
        assert(forall|k: int|
            0 <= k < combined.len() ==> ((#[trigger] combined[k]) as int) < n);
        lemma_distinct_bounded(combined, m.len());
        assert(false);
    } else {
        let u0 = q[0];
        let popped2 = popped.push(u0);
        let q2 = q.drop_first() + new_zeros(m, u0 as int, d);
        let d2 = dec_row(m, u0 as int, d);
        let nz = new_zeros(m, u0 as int, d);
        lemma_new_zeros_facts(m, u0 as int, d, d.len() as int);
        assert(!popped.contains(u0));
        assert(unpaid(m, popped, u0 as int, n) == 0) by {
            assert(q.contains(u0)) by {
                assert(q[0] == u0);
            }
        }
        // In-degree bookkeeping for the recursive state.
        assert forall|t: int| 0 <= t < n implies d2[t] == unpaid(m, popped2, t, n) by {
            lemma_unpaid_push(m, popped, u0, t, n);
        }
        assert forall|k: int| 0 <= k < q2.len() implies ((#[trigger] q2[k]) as int) < n
            && !popped2.contains(q2[k]) by {
            lemma_contains_push(popped, u0, q2[k]);
            if k < q.drop_first().len() {
                assert(q2[k] == q[k + 1]);
                assert(!popped.contains(q[k + 1]));
                assert(q[k + 1] != u0);
            } else {
                let z = nz[k - q.drop_first().len()];
                assert(q2[k] == z);
                assert(d[z as int] == 1);
                assert(unpaid(m, popped, z as int, n) == 1);
                assert(!popped.contains(z)) by {
                    if popped.contains(z) {
                        assert(unpaid(m, popped, z as int, n) == 0);
                    }
                }
                assert(z != u0);
            }
        }
        assert(q2.no_duplicates()) by {
            assert forall|k1: int, k2: int|
                0 <= k1 < k2 < q2.len() implies q2[k1] != q2[k2] by {
                let qd = q.drop_first();
                if k2 < qd.len() {
                    assert(q2[k1] == q[k1 + 1] && q2[k2] == q[k2 + 1]);
                } else if k1 >= qd.len() {
                    assert(q2[k1] == nz[k1 - qd.len()] && q2[k2] == nz[k2 - qd.len()]);
                } else {
                    assert(q2[k1] == q[k1 + 1]);
                    let z = nz[k2 - qd.len()];
                    assert(q2[k2] == z);
                    assert(unpaid(m, popped, z as int, n) == 1);
                    if q[k1 + 1] == z {
                        assert(q.contains(z)) by {
                            assert(q[k1 + 1] == z);
                        }
                        assert(unpaid(m, popped, z as int, n) == 0);
                    }
                }
            }
        }
        assert(popped2.no_duplicates()) by {
            assert(forall|k: int| 0 <= k < popped.len() ==> popped2[k] == popped[k]);
            assert(popped2[popped.len() as int] == u0);
            assert forall|k1: int, k2: int|
                0 <= k1 < k2 < popped2.len() implies popped2[k1] != popped2[k2] by {
                if k2 == popped.len() {
                    if popped[k1] == u0 {
                        assert(popped.contains(u0));
                    }
                }
            }
        }
        // Queue membership matches a zero unpaid count in the new state.
        assert forall|t: usize| (t as int) < n implies ((q2.contains(t) || popped2.contains(t))
            <==> unpaid(m, popped2, t as int, n) == 0) by {
            lemma_unpaid_push(m, popped, u0, t as int, n);
            lemma_contains_push(popped, u0, t);
            lemma_unpaid_nonneg(m, popped2, t as int, n);
            lemma_unpaid_nonneg(m, popped, t as int, n);
            let qd = q.drop_first();
            if t == u0 {
                assert(popped2.contains(t));
                assert(unpaid(m, popped2, t as int, n) == 0);
            } else {
                // Membership transfers between the old and new queues.
                assert(q.contains(t) <==> qd.contains(t)) by {
                    if q.contains(t) {
                        let k = choose|k: int| 0 <= k < q.len() && q[k] == t;
                        assert(k != 0);
                        assert(qd[k - 1] == t);
                    }
                    if qd.contains(t) {
                        let k = choose|k: int| 0 <= k < qd.len() && qd[k] == t;
                        assert(q[k + 1] == t);
                    }
                }
                assert(qd.contains(t) ==> q2.contains(t)) by {
                    if qd.contains(t) {
                        let k = choose|k: int| 0 <= k < qd.len() && qd[k] == t;
                        assert(q2[k] == t);
                    }
                }
                assert(nz.contains(t) ==> q2.contains(t)) by {
                    if nz.contains(t) {
                        let k = choose|k: int| 0 <= k < nz.len() && nz[k] == t;
                        assert(q2[qd.len() + k] == t);
                    }
                }
                assert(q2.contains(t) ==> (qd.contains(t) || nz.contains(t))) by {
                    if q2.contains(t) {
                        let k = choose|k: int| 0 <= k < q2.len() && q2[k] == t;
                        if k < qd.len() {
                            assert(qd[k] == t);
                        } else {
                            assert(nz[k - qd.len()] == t);
                        }
                    }
                }
                if q2.contains(t) || popped2.contains(t) {
                    if popped.contains(t) || qd.contains(t) {
                        assert(unpaid(m, popped, t as int, n) == 0);
                        assert(unpaid(m, popped2, t as int, n) == 0);
                    } else {
                        assert(nz.contains(t));
                        let k = choose|k: int| 0 <= k < nz.len() && nz[k] == t;
                        assert(d[t as int] == 1 && m[u0 as int][t as int] == 1);
                        assert(unpaid(m, popped2, t as int, n) == 0);
                    }
                }
                if unpaid(m, popped2, t as int, n) == 0 {
                    if unpaid(m, popped, t as int, n) == 0 {
                        assert(q.contains(t) || popped.contains(t));
                        assert(q2.contains(t) || popped2.contains(t));
                    } else {
                        assert(unpaid(m, popped, t as int, n) == 1 && m[u0 as int][t as int] == 1);
                        assert(nz.contains(t)) by {
                            assert(d[t as int] == 1);
                            assert(nz == new_zeros_upto(m, u0 as int, d, d.len() as int));
                            lemma_new_zeros_complete(m, u0 as int, d, t, d.len() as int);
                        }
                        assert(q2.contains(t));
                    }
                }
            }
        }
        lemma_kahn_run(m, q2, d2, popped2, (fuel - 1) as nat);
        let pops = kahn_pops(m, q, d, fuel);
        let rpops = kahn_pops(m, q2, d2, (fuel - 1) as nat);
        let out = kahn_rec(m, q, d, fuel);
        let rout = kahn_rec(m, q2, d2, (fuel - 1) as nat);
        let row = row_edges(m, u0 as int);
        assert(pops == seq![u0] + rpops);
        assert(out == row + rout);
        crate::resolution::lemma_row_edges_sub(m, u0 as int, n);
        lemma_row_edges_distinct(m, u0 as int, n);
        // Freshness and distinctness of the pops.
        assert forall|k: int| 0 <= k < pops.len() implies (((#[trigger] pops[k]) as int) < n
            && !popped.contains(pops[k])) by {
            if k == 0 {
                assert(pops[0] == u0);
            } else {
                assert(pops[k] == rpops[k - 1]);
                lemma_contains_push(popped, u0, rpops[k - 1]);
            }
        }
        assert(pops.no_duplicates()) by {
            assert forall|k1: int, k2: int|
                0 <= k1 < k2 < pops.len() implies pops[k1] != pops[k2] by {
                if k1 == 0 {
                    assert(pops[0] == u0 && pops[k2] == rpops[k2 - 1]);
                    assert(!popped2.contains(rpops[k2 - 1]));
                    lemma_contains_push(popped, u0, rpops[k2 - 1]);
                } else {
                    assert(pops[k1] == rpops[k1 - 1] && pops[k2] == rpops[k2 - 1]);
                }
            }
        }
        // Discovery of every out-edge of a popped node.
        assert forall|u: usize, v: usize|
            (u as int) < n && (v as int) < n && m[u as int][v as int] == 1 && pops.contains(u)
            implies contains_pair(out, u as int, v as int) by {
            let k = choose|k: int| 0 <= k < pops.len() && pops[k] == u;
            if k == 0 {
                lemma_row_edges_contains(m, u0 as int, v as int, n);
                let k2 = choose|k2: int|
                    0 <= k2 < row.len() && row[k2] == ((u as usize, v as usize));
                assert(out[k2] == row[k2]);
            } else {
                assert(rpops[k - 1] == u);
                assert(rpops.contains(u));
                assert(contains_pair(rout, u as int, v as int));
                let k2 = choose|k2: int|
                    0 <= k2 < rout.len() && rout[k2] == ((u as usize, v as usize));
                assert(out[row.len() + k2] == rout[k2]);
            }
        }
        // Every discovered edge leaves a popped node.
        assert forall|k: int| 0 <= k < out.len() implies pops.contains((#[trigger] out[k]).0) by {
            if k < row.len() {
                assert(out[k] == row[k]);
                assert(row[k].0 == u0);
                assert(pops[0] == u0);
            } else {
                assert(out[k] == rout[k - row.len()]);
                assert(rpops.contains(rout[k - row.len()].0));
                let k2 = choose|k2: int|
                    0 <= k2 < rpops.len() && rpops[k2] == rout[k - row.len()].0;
                assert(pops[k2 + 1] == rpops[k2]);
            }
        }
        // No edge is discovered twice.
        assert(out.no_duplicates()) by {
            assert forall|k1: int, k2: int|
                0 <= k1 < k2 < out.len() implies out[k1] != out[k2] by {
                if k2 < row.len() {
                    assert(out[k1] == row[k1] && out[k2] == row[k2]);
                    assert((row[k1].1 as int) < (row[k2].1 as int));
                } else if k1 >= row.len() {
                    assert(out[k1] == rout[k1 - row.len()] && out[k2] == rout[k2 - row.len()]);
                } else {
                    assert(out[k1] == row[k1] && out[k2] == rout[k2 - row.len()]);
                    assert(row[k1].0 == u0);
                    assert(rpops.contains(rout[k2 - row.len()].0));
                    if row[k1] == rout[k2 - row.len()] {
                        assert(rpops.contains(u0));
                        let k3 = choose|k3: int| 0 <= k3 < rpops.len() && rpops[k3] == u0;
                        assert(!popped2.contains(rpops[k3]));
                        assert(popped2.contains(u0)) by {
                            assert(popped2[popped.len() as int] == u0);
                        }
                    }
                }
            }
        }
        // The closure of the unpopped nodes.
        assert forall|u: usize|
            (u as int) < n && !popped.contains(u) && !pops.contains(u) implies exists|w: usize|
            (w as int) < n && m[w as int][u as int] == 1 && !popped.contains(w) && !pops.contains(
            w,
        ) by {
            assert(u != u0) by {
                if u == u0 {
                    assert(pops[0] == u0);
                    assert(pops.contains(u));
                }
            }
            lemma_contains_push(popped, u0, u);
            assert(!popped2.contains(u));
            assert(!rpops.contains(u)) by {
                if rpops.contains(u) {
                    let k = choose|k: int| 0 <= k < rpops.len() && rpops[k] == u;
                    assert(pops[k + 1] == u);
                    assert(pops.contains(u));
                }
            }
            let w = choose|w: usize|
                (w as int) < n && m[w as int][u as int] == 1 && !popped2.contains(w)
                    && !rpops.contains(w);
            lemma_contains_push(popped, u0, w);
            assert(!pops.contains(w)) by {
                if pops.contains(w) {
                    let k = choose|k: int| 0 <= k < pops.len() && pops[k] == w;
                    if k == 0 {
                        assert(w == u0);
                        assert(popped2.contains(u0)) by {
                            assert(popped2[popped.len() as int] == u0);
                        }
                    } else {
                        assert(rpops[k - 1] == w);
                        assert(rpops.contains(w));
                    }
                }
            }
            assert((w as int) < n && m[w as int][u as int] == 1 && !popped.contains(w)
                && !pops.contains(w));
        }
    }
}

/// A target whose in-degree reaches zero when `u`'s edges are paid is
/// enqueued.
pub proof fn lemma_new_zeros_complete(m: Seq<Seq<i32>>, u: int, d: Seq<int>, t: usize, upto: int)
    requires
        (t as int) < upto <= usize::MAX,
        m[u][t as int] == 1,
        d[t as int] == 1,
    ensures
        new_zeros_upto(m, u, d, upto).contains(t),
    decreases upto,
{
    if (t as int) == upto - 1 {
        let cur = new_zeros_upto(m, u, d, upto);
        assert(cur[cur.len() - 1] == t);
    } else {
        lemma_new_zeros_complete(m, u, d, t, upto - 1);
        let prev = new_zeros_upto(m, u, d, upto - 1);
        let k = choose|k: int| 0 <= k < prev.len() && prev[k] == t;
        assert(new_zeros_upto(m, u, d, upto)[k] == prev[k]);
    }
}


/// From an unpopped node, the closure property yields ever-longer chains of
/// unpopped nodes with strictly descending rank.
proof fn lemma_desc_chain(
    m: Seq<Seq<i32>>,
    rank: Seq<int>,
    pops: Seq<usize>,
    u: usize,
    k: nat,
)
    requires
        rank.len() == m.len(),
        forall|a: int, b: int|
            0 <= a < m.len() && 0 <= b < m.len() && #[trigger] m[a][b] == 1 ==> rank[a] < rank[b],
        (u as int) < m.len(),
        !pops.contains(u),
        forall|x: usize|
            (x as int) < m.len() && !pops.contains(x) ==> exists|w: usize|
                (w as int) < m.len() && m[w as int][x as int] == 1 && !pops.contains(w),
    ensures
        exists|chain: Seq<usize>|
            #![trigger chain.len()]
            {
                &&& chain.len() == k + 1
                &&& (forall|i: int|
                    0 <= i < chain.len() ==> (((#[trigger] chain[i]) as int) < m.len()
                        && !pops.contains(chain[i])))
                &&& (forall|i1: int, i2: int|
                    0 <= i1 < i2 < chain.len() ==> rank[(#[trigger] chain[i2]) as int] < rank[(
                    #[trigger] chain[i1]) as int])
            },
    decreases k,
{
    if k == 0 {
        let chain = seq![u];
        assert(chain.len() == k + 1 && (forall|i: int|
            0 <= i < chain.len() ==> (((#[trigger] chain[i]) as int) < m.len() && !pops.contains(
                chain[i],
            ))) && (forall|i1: int, i2: int|
            0 <= i1 < i2 < chain.len() ==> rank[(#[trigger] chain[i2]) as int] < rank[(
            #[trigger] chain[i1]) as int]));
    } else {
        lemma_desc_chain(m, rank, pops, u, (k - 1) as nat);
        let chain = choose|chain: Seq<usize>|
            #![trigger chain.len()]
            {
                &&& chain.len() == (k - 1) + 1
                &&& (forall|i: int|
                    0 <= i < chain.len() ==> (((#[trigger] chain[i]) as int) < m.len()
                        && !pops.contains(chain[i])))
                &&& (forall|i1: int, i2: int|
                    0 <= i1 < i2 < chain.len() ==> rank[(#[trigger] chain[i2]) as int] < rank[(
                    #[trigger] chain[i1]) as int])
            };
        let last = chain[chain.len() - 1];
        let w = choose|w: usize|
            (w as int) < m.len() && m[w as int][last as int] == 1 && !pops.contains(w);
        let chain2 = chain.push(w);
        assert(rank[w as int] < rank[last as int]);
        assert(chain2.len() == k + 1);
        assert forall|i: int| 0 <= i < chain2.len() implies (((#[trigger] chain2[i]) as int)
            < m.len() && !pops.contains(chain2[i])) by {
            if i < chain.len() {
                assert(chain2[i] == chain[i]);
            } else {
                assert(chain2[i] == w);
            }
        }
        assert forall|i1: int, i2: int| 0 <= i1 < i2 < chain2.len() implies rank[(
        #[trigger] chain2[i2]) as int] < rank[(#[trigger] chain2[i1]) as int] by {
            if i2 < chain.len() {
                assert(chain2[i1] == chain[i1] && chain2[i2] == chain[i2]);
            } else {
                assert(chain2[i2] == w);
                assert(chain2[i1] == chain[i1]);
                if i1 < chain.len() - 1 {
                    assert(rank[last as int] < rank[chain[i1] as int]);
                }
            }
        }
    }
}

/// On an acyclic matrix, Kahn's run pops every node, so every edge is
/// discovered.
pub proof fn lemma_kahn_complete(m: Seq<Seq<i32>>)
    requires
        matrix_wf(m),
        m.len() <= usize::MAX,
        exists|rank: Seq<int>|
            rank.len() == m.len() && forall|a: int, b: int|
                0 <= a < m.len() && 0 <= b < m.len() && #[trigger] m[a][b] == 1 ==> rank[a]
                    < rank[b],
    ensures
        forall|u: int, v: int|
            0 <= u < m.len() && 0 <= v < m.len() && m[u][v] == 1 ==> contains_pair(
                kahn_spec(m),
                u,
                v,
            ),
        kahn_spec(m).no_duplicates(),
        forall|k1: int, k2: int|
            0 <= k1 < k2 < kahn_spec(m).len() ==> (#[trigger] kahn_spec(m)[k1]) != (
            #[trigger] kahn_spec(m)[k2]),
{
    let n = m.len() as int;
    lemma_init_queue_facts(m, n);
    let q0 = init_queue(m);
    let d0 = init_indeg(m);
    assert(d0.len() == m.len());
    assert forall|t: int| 0 <= t < n implies d0[t] == unpaid(
        m,
        Seq::<usize>::empty(),
        t,
        n,
    ) by {
        lemma_unpaid_empty(m, t, n);
    }
    assert forall|t: usize| (t as int) < n implies ((q0.contains(t) || Seq::<usize>::empty(
    ).contains(t)) <==> unpaid(m, Seq::<usize>::empty(), t as int, n) == 0) by {
        lemma_unpaid_empty(m, t as int, n);
    }
    assert(q0.no_duplicates()) by {
        assert(forall|k1: int, k2: int|
            0 <= k1 < k2 < q0.len() ==> (#[trigger] q0[k1]) != (#[trigger] q0[k2]));
    }
    lemma_kahn_run(m, q0, d0, Seq::<usize>::empty(), m.len());
    let pops = kahn_pops(m, q0, d0, m.len());
    // Every node is popped: an unpopped node would head an arbitrarily long
    // chain of distinct nodes.
    assert forall|u: usize| (u as int) < n implies pops.contains(u) by {
        if !pops.contains(u) {
            let rank = choose|rank: Seq<int>|
                rank.len() == m.len() && forall|a: int, b: int|
                    0 <= a < m.len() && 0 <= b < m.len() && #[trigger] m[a][b] == 1 ==> rank[a]
                        < rank[b];
            assert forall|x: usize|
                (x as int) < m.len() && !pops.contains(x) implies exists|w: usize|
                (w as int) < m.len() && m[w as int][x as int] == 1 && !pops.contains(w) by {
                assert(!Seq::<usize>::empty().contains(x));
            }
            lemma_desc_chain(m, rank, pops, u, m.len());
            let chain = choose|chain: Seq<usize>|
                #![trigger chain.len()]
                {
                    &&& chain.len() == m.len() + 1
                    &&& (forall|i: int|
                        0 <= i < chain.len() ==> (((#[trigger] chain[i]) as int) < m.len()
                            && !pops.contains(chain[i])))
                    &&& (forall|i1: int, i2: int|
                        0 <= i1 < i2 < chain.len() ==> rank[(#[trigger] chain[i2]) as int] < rank[(
                        #[trigger] chain[i1]) as int])
                };
            assert(chain.no_duplicates()) by {
                assert forall|k1: int, k2: int|
                    0 <= k1 < k2 < chain.len() implies chain[k1] != chain[k2] by {
                    assert(rank[chain[k2] as int] < rank[chain[k1] as int]);
                }
            }
            lemma_distinct_bounded(chain, m.len());
            assert(false);
        }
    }
    assert forall|u: int, v: int|
        0 <= u < n && 0 <= v < n && m[u][v] == 1 implies contains_pair(kahn_spec(m), u, v) by {
        assert(pops.contains((u as usize)));
        assert(((u as usize) as int) < n && ((v as usize) as int) < n && m[(u as usize) as int][(
        v as usize) as int] == 1);
    }
    assert(kahn_spec(m).no_duplicates());
}


/// The surviving edges have pairwise distinct targets.
pub proof fn lemma_keep_targets(ord: Seq<(usize, usize)>, upto: int)
    requires
        0 <= upto <= ord.len(),
    ensures
        forall|q1: int, q2: int|
            0 <= q1 < q2 < keep_first_upto(ord, upto).len() ==> (#[trigger] keep_first_upto(
                ord,
                upto,
            )[q1]).1 != (#[trigger] keep_first_upto(ord, upto)[q2]).1,
    decreases upto,
{
    if upto > 0 {
        lemma_keep_targets(ord, upto - 1);
        crate::resolution::lemma_keep_first_sub(ord, upto - 1);
        let prev = keep_first_upto(ord, upto - 1);
        let cur = keep_first_upto(ord, upto);
        assert forall|q1: int, q2: int| 0 <= q1 < q2 < cur.len() implies (#[trigger] cur[q1]).1
            != (#[trigger] cur[q2]).1 by {
            if q2 < prev.len() {
                assert(cur[q1] == prev[q1] && cur[q2] == prev[q2]);
            } else {
                assert(!earlier_same_target(ord, upto - 1));
                assert(cur[q1] == prev[q1]);
                assert(cur[q2] == ord[upto - 1]);
                let i = choose|i: int| 0 <= i < upto - 1 && (#[trigger] prev[q1]) == ord[i];
                if prev[q1].1 == ord[upto - 1].1 {
                    assert(ord[i].1 == ord[upto - 1].1);
                    assert(earlier_same_target(ord, upto - 1));
                }
            }
        }
    }
}

/// Idempotence of the transitive reduction: reapplying the pipeline to an
/// already-reduced DAG is a no-op. After one pass every node keeps at most
/// one in-edge, so the second pass discovers every surviving edge exactly
/// once and drops nothing.
pub proof fn lemma_transitive_reduction_idempotent(m: Seq<Seq<i32>>)
    requires
        matrix_wf(m),
        m.len() <= usize::MAX,
        crate::resolution::acyclic(m),
    ensures
        tr_pipeline(tr_pipeline(m)) == tr_pipeline(m),
{
    let n = m.len() as int;
    let m1 = tr_pipeline(m);
    crate::resolution::lemma_tr_subset(m);
    assert(matrix_wf(m1));
    let rank = choose|rank: Seq<int>|
        rank.len() == m.len() && forall|u: int, v: int|
            0 <= u < m.len() && 0 <= v < m.len() && #[trigger] m[u][v] == 1 ==> rank[u] < rank[v];
    assert(crate::resolution::acyclic(m1)) by {
        assert(rank.len() == m1.len() && forall|u: int, v: int|
            0 <= u < m1.len() && 0 <= v < m1.len() && #[trigger] m1[u][v] == 1 ==> rank[u]
                < rank[v]);
    }
    // After one pass, each node keeps at most one in-edge.
    lemma_keep_targets(kahn_spec(m), kahn_spec(m).len() as int);
    let kept = keep_first(kahn_spec(m));
    assert forall|u1: int, u2: int, j: int|
        0 <= u1 < n && 0 <= u2 < n && 0 <= j < n && u1 != u2 implies !(m1[u1][j] == 1 && m1[u2][j]
        == 1) by {
        if m1[u1][j] == 1 && m1[u2][j] == 1 {
            assert(contains_pair(kept, u1, j) && contains_pair(kept, u2, j));
            let k1 = choose|k1: int| 0 <= k1 < kept.len() && kept[k1] == ((u1 as usize, j as usize));
            let k2 = choose|k2: int| 0 <= k2 < kept.len() && kept[k2] == ((u2 as usize, j as usize));
            assert(k1 != k2);
            if k1 < k2 {
                assert(kept[k1].1 != kept[k2].1);
            } else {
                assert(kept[k2].1 != kept[k1].1);
            }
        }
    }
    // The second pass discovers every surviving edge exactly once.
    lemma_kahn_complete(m1);
    crate::resolution::lemma_kahn_spec_sub(m1);
    let ord2 = kahn_spec(m1);
    assert forall|k1: int, k2: int| 0 <= k1 < k2 < ord2.len() implies (#[trigger] ord2[k1]).1 != (
    #[trigger] ord2[k2]).1 by {
        if ord2[k1].1 == ord2[k2].1 {
            assert(m1[ord2[k1].0 as int][ord2[k1].1 as int] == 1);
            assert(m1[ord2[k2].0 as int][ord2[k2].1 as int] == 1);
            assert(ord2[k1].0 == ord2[k2].0) by {
                if ord2[k1].0 != ord2[k2].0 {
                    assert(!(m1[ord2[k1].0 as int][ord2[k1].1 as int] == 1 && m1[ord2[k2].0 as int][
                    ord2[k1].1 as int] == 1));
                }
            }
            assert(ord2[k1] == ord2[k2]) by {
                assert(ord2[k1].1 == ord2[k2].1);
            }
        }
    }
    lemma_keep_first_noop(ord2, ord2.len() as int);
    assert(keep_first(ord2) =~= ord2);
    // Rebuilding from the full discovery order reproduces the matrix.
    assert(tr_pipeline(m1) =~~= m1) by {
        assert(tr_pipeline(m1).len() == m1.len());
        assert forall|i: int, j: int| 0 <= i < n && 0 <= j < n implies #[trigger] tr_pipeline(
            m1,
        )[i][j] == m1[i][j] by {
            if m1[i][j] == 1 {
                assert(contains_pair(ord2, i, j));
                assert(contains_pair(keep_first(ord2), i, j));
                assert(tr_pipeline(m1)[i][j] == 1);
            } else {
                assert(!contains_pair(keep_first(ord2), i, j)) by {
                    if contains_pair(keep_first(ord2), i, j) {
                        let k = choose|k: int|
                            0 <= k < ord2.len() && (#[trigger] ord2[k]) == ((i as usize, j as usize));
                        assert(m1[i][j] == 1);
                    }
                }
                assert(tr_pipeline(m1)[i][j] == 0);
            }
        }
    }
}

} // verus!
