//! The shared contract of the resolution engine: the case-based rewriting of
//! an acyclic covering-relation graph into an ordered nested-integral
//! specification. Two interchangeable backends implement it: a dense
//! matrix backend and a hashmap adjacency/predecessor backend. They may emit
//! different (but equally valid) specifications; both must satisfy
//! `resolve_post`.

use crate::integral::Bound;
use crate::integral::IntegralSpec;
use crate::maths::dec_spec;
use crate::maths::u64_to_string;
use crate::transitive_reduction::col_count;
use crate::transitive_reduction::contains_pair;
use crate::transitive_reduction::keep_first;
use crate::transitive_reduction::keep_first_upto;
use crate::transitive_reduction::kahn_rec;
use crate::transitive_reduction::kahn_spec;
use crate::transitive_reduction::matrix_wf;
use crate::transitive_reduction::new_zeros_upto;
use crate::transitive_reduction::row_edges_upto;
use crate::transitive_reduction::tr_pipeline;
use vstd::prelude::*;

verus! {

/// The number of out-edges of `u` with targets below `upto`.
pub open spec fn row_count(m: Seq<Seq<i32>>, u: int, upto: int) -> int
    decreases upto,
{
    if upto <= 0 {
        0
    } else {
        row_count(m, u, upto - 1) + if m[u][upto - 1] == 1 {
            1int
        } else {
            0int
        }
    }
}

/// The out-degree of `u`.
pub open spec fn out_deg(m: Seq<Seq<i32>>, u: int) -> int {
    row_count(m, u, m.len() as int)
}

/// The in-degree of `t`.
pub open spec fn in_deg(m: Seq<Seq<i32>>, t: int) -> int {
    col_count(m, t, m.len() as int)
}

/// The total number of edges.
pub open spec fn count_all(m: Seq<Seq<i32>>, rows: int) -> int
    decreases rows,
{
    if rows <= 0 {
        0
    } else {
        count_all(m, rows - 1) + row_count(m, rows - 1, m.len() as int)
    }
}

/// A well-formed DAG matrix: square, entries in {0, 1}, no self-loops.
pub open spec fn dag_wf(m: Seq<Seq<i32>>) -> bool {
    &&& matrix_wf(m)
    &&& forall|c: int| 0 <= c < m.len() ==> (#[trigger] m[c][c]) == 0
}

/// Acyclicity, witnessed by a rank that every edge strictly increases.
pub open spec fn acyclic(m: Seq<Seq<i32>>) -> bool {
    exists|rank: Seq<int>|
        rank.len() == m.len() && forall|u: int, v: int|
            0 <= u < m.len() && 0 <= v < m.len() && #[trigger] m[u][v] == 1 ==> rank[u] < rank[v]
}

/// No edge remains: the fully isolated terminal state.
pub open spec fn all_zero(m: Seq<Seq<i32>>) -> bool {
    forall|i: int, j: int| 0 <= i < m.len() && 0 <= j < m.len() ==> (#[trigger] m[i][j]) == 0
}

/// The all-zero row of width `n`.
pub open spec fn zero_row(n: int) -> Seq<i32> {
    Seq::new(n as nat, |j: int| 0i32)
}

/// The matrix with node `c`'s out-edges removed.
pub open spec fn clear_row_spec(m: Seq<Seq<i32>>, c: int) -> Seq<Seq<i32>> {
    m.update(c, zero_row(m[c].len() as int))
}

/// The matrix with one cell overwritten.
pub open spec fn cell_set(m: Seq<Seq<i32>>, i: int, j: int, x: i32) -> Seq<Seq<i32>> {
    m.update(i, m[i].update(j, x))
}

/// A node's degree pattern admits a rewrite.
pub open spec fn fireable(m: Seq<Seq<i32>>, c: int) -> bool {
    ||| (in_deg(m, c) == 0 && out_deg(m, c) == 1)
    ||| (in_deg(m, c) == 1 && out_deg(m, c) == 0)
    ||| (in_deg(m, c) == 1 && out_deg(m, c) == 1)
}

/// A complete scan finds no rewrite to fire.
pub open spec fn stalled(m: Seq<Seq<i32>>) -> bool {
    forall|c: int| 0 <= c < m.len() ==> !fireable(m, c)
}

/// One rewrite of the decomposition at node `c`, taking the DAG from `m` to
/// `m2` and emitting the integration step `e`.
///
/// - Top case: no predecessor, one successor `s`: emit `(c, 0, x_s)` and
///   isolate `c`.
/// - Bottom case: one predecessor `p`, no successor: emit `(c, x_p, 1)` and
///   delete the edge `p -> c`.
/// - Interior case: one predecessor `p`, one successor `s`: emit
///   `(c, x_p, x_s)`, rewire `p -> s` bypassing `c`, isolate `c`, and repair
///   by transitive reduction.
pub open spec fn bit_step(
    m: Seq<Seq<i32>>,
    c: int,
    m2: Seq<Seq<i32>>,
    e: (usize, Bound, Bound),
) -> bool {
    let n = m.len() as int;
    &&& 0 <= c < n
    &&& e.0 == c as usize
    &&& {
        ||| (in_deg(m, c) == 0 && out_deg(m, c) == 1 && exists|s: int|
            0 <= s < n && #[trigger] m[c][s] == 1 && e.1 == Bound::Zero && e.2 == Bound::Var(
                s as usize,
            ) && m2 == clear_row_spec(m, c))
        ||| (in_deg(m, c) == 1 && out_deg(m, c) == 0 && exists|p: int|
            0 <= p < n && #[trigger] m[p][c] == 1 && e.1 == Bound::Var(p as usize) && e.2
                == Bound::One && m2 == cell_set(m, p, c, 0))
        ||| (in_deg(m, c) == 1 && out_deg(m, c) == 1 && exists|p: int, s: int|
            0 <= p < n && 0 <= s < n && #[trigger] m[p][c] == 1 && #[trigger] m[c][s] == 1 && e.1
                == Bound::Var(p as usize) && e.2 == Bound::Var(s as usize) && m2 == tr_pipeline(
                clear_row_spec(cell_set(cell_set(m, p, s, 1), p, c, 0), c),
            ))
    }
}

/// The DAG `m2` is reachable from `m1` by the rewrites emitting `entries`.
pub open spec fn bit_reaches(
    m1: Seq<Seq<i32>>,
    m2: Seq<Seq<i32>>,
    entries: Seq<(usize, Bound, Bound)>,
) -> bool
    decreases entries.len(),
{
    if entries.len() == 0 {
        m1 == m2
    } else {
        exists|c: int, mid: Seq<Seq<i32>>|
            #[trigger] bit_step(m1, c, mid, entries[0]) && bit_reaches(mid, m2, entries.skip(1))
    }
}

/// Extends a rewrite sequence by one step.
pub proof fn lemma_reaches_step(
    m1: Seq<Seq<i32>>,
    m2: Seq<Seq<i32>>,
    m3: Seq<Seq<i32>>,
    entries: Seq<(usize, Bound, Bound)>,
    c: int,
    e: (usize, Bound, Bound),
)
    requires
        bit_reaches(m1, m2, entries),
        bit_step(m2, c, m3, e),
    ensures
        bit_reaches(m1, m3, entries.push(e)),
    decreases entries.len(),
{
    if entries.len() == 0 {
        assert(entries.push(e)[0] == e);
        assert(entries.push(e).skip(1) =~= Seq::<(usize, Bound, Bound)>::empty());
        assert(bit_reaches(m3, m3, entries.push(e).skip(1)));
    } else {
        let (c0, mid) = choose|c0: int, mid: Seq<Seq<i32>>|
            #[trigger] bit_step(m1, c0, mid, entries[0]) && bit_reaches(mid, m2, entries.skip(1));
        lemma_reaches_step(mid, m2, m3, entries.skip(1), c, e);
        assert(entries.push(e)[0] == entries[0]);
        assert(entries.push(e).skip(1) =~= entries.skip(1).push(e));
        assert(bit_step(m1, c0, mid, entries.push(e)[0]) && bit_reaches(
            mid,
            m3,
            entries.push(e).skip(1),
        ));
    }
}

pub proof fn lemma_row_count_nonneg(m: Seq<Seq<i32>>, u: int, upto: int)
    ensures
        row_count(m, u, upto) >= 0,
    decreases upto,
{
    if upto > 0 {
        lemma_row_count_nonneg(m, u, upto - 1);
    }
}

pub proof fn lemma_count_all_nonneg(m: Seq<Seq<i32>>, rows: int)
    ensures
        count_all(m, rows) >= 0,
    decreases rows,
{
    if rows > 0 {
        lemma_count_all_nonneg(m, rows - 1);
        lemma_row_count_nonneg(m, rows - 1, m.len() as int);
    }
}

/// Row counts agree when the rows agree pointwise below `upto`.
pub proof fn lemma_row_count_congr(m1: Seq<Seq<i32>>, m2: Seq<Seq<i32>>, u: int, upto: int)
    requires
        forall|j: int| 0 <= j < upto ==> m1[u][j] == m2[u][j],
    ensures
        row_count(m1, u, upto) == row_count(m2, u, upto),
    decreases upto,
{
    if upto > 0 {
        lemma_row_count_congr(m1, m2, u, upto - 1);
    }
}

/// Total edge counts change only through the rows that change.
pub proof fn lemma_count_all_delta(m1: Seq<Seq<i32>>, m2: Seq<Seq<i32>>, r: int, rows: int)
    requires
        m1.len() == m2.len(),
        rows <= m1.len(),
        forall|u: int| 0 <= u < m1.len() && u != r ==> m1[u] == m2[u],
    ensures
        count_all(m2, rows) == count_all(m1, rows) + if 0 <= r < rows {
            out_deg(m2, r) - out_deg(m1, r)
        } else {
            0int
        },
    decreases rows,
{
    if rows > 0 {
        lemma_count_all_delta(m1, m2, r, rows - 1);
        if rows - 1 != r {
            assert(m1[rows - 1] == m2[rows - 1]);
            lemma_row_count_congr(m1, m2, rows - 1, m1.len() as int);
        }
    }
}

/// The all-zero row has no edges.
pub proof fn lemma_row_count_zero(m: Seq<Seq<i32>>, u: int, upto: int)
    requires
        0 <= u < m.len(),
        m[u] == zero_row(m[u].len() as int),
        upto <= m[u].len(),
    ensures
        row_count(m, u, upto) == 0,
    decreases upto,
{
    if upto > 0 {
        lemma_row_count_zero(m, u, upto - 1);
    }
}

/// Changing one cell changes the row count by the cell's delta.
pub proof fn lemma_row_count_cell(m: Seq<Seq<i32>>, u: int, j: int, x: i32, upto: int)
    requires
        0 <= u < m.len(),
        0 <= j < m[u].len(),
        upto <= m[u].len(),
    ensures
        row_count(cell_set(m, u, j, x), u, upto) == row_count(m, u, upto) + if j < upto {
            (if x == 1 {
                1int
            } else {
                0int
            }) - (if m[u][j] == 1 {
                1int
            } else {
                0int
            })
        } else {
            0int
        },
    decreases upto,
{
    if upto > 0 {
        lemma_row_count_cell(m, u, j, x, upto - 1);
        assert(cell_set(m, u, j, x)[u] == m[u].update(j, x));
        if upto - 1 != j {
            assert(cell_set(m, u, j, x)[u][upto - 1] == m[u][upto - 1]);
        }
    }
}

/// An edge-subset matrix has at most as many edges.
pub proof fn lemma_row_count_le(m1: Seq<Seq<i32>>, m2: Seq<Seq<i32>>, u: int, upto: int)
    requires
        forall|j: int| 0 <= j < upto ==> (m2[u][j] == 1 ==> m1[u][j] == 1),
        forall|j: int| 0 <= j < upto ==> (#[trigger] m1[u][j]) == 0 || m1[u][j] == 1,
        forall|j: int| 0 <= j < upto ==> (#[trigger] m2[u][j]) == 0 || m2[u][j] == 1,
    ensures
        row_count(m2, u, upto) <= row_count(m1, u, upto),
    decreases upto,
{
    if upto > 0 {
        lemma_row_count_le(m1, m2, u, upto - 1);
    }
}

pub proof fn lemma_count_all_le(m1: Seq<Seq<i32>>, m2: Seq<Seq<i32>>, rows: int)
    requires
        m1.len() == m2.len(),
        forall|i: int, j: int|
            0 <= i < m1.len() && 0 <= j < m1.len() ==> (#[trigger] m2[i][j] == 1 ==> m1[i][j] == 1),
        matrix_wf(m1),
        matrix_wf(m2),
        rows <= m1.len(),
    ensures
        count_all(m2, rows) <= count_all(m1, rows),
    decreases rows,
{
    if rows > 0 {
        lemma_count_all_le(m1, m2, rows - 1);
        lemma_row_count_le(m1, m2, rows - 1, m1.len() as int);
    }
}

/// Every edge a row scan discovers is an edge of the matrix, from `u`.
pub proof fn lemma_row_edges_sub(m: Seq<Seq<i32>>, u: int, upto: int)
    requires
        0 <= u <= usize::MAX,
        0 <= upto <= usize::MAX,
    ensures
        forall|k: int|
            0 <= k < row_edges_upto(m, u, upto).len() ==> {
                let e = #[trigger] row_edges_upto(m, u, upto)[k];
                &&& e.0 as int == u
                &&& (e.1 as int) < upto
                &&& m[u][e.1 as int] == 1
            },
    decreases upto,
{
    if upto > 0 {
        lemma_row_edges_sub(m, u, upto - 1);
        let prev = row_edges_upto(m, u, upto - 1);
        let cur = row_edges_upto(m, u, upto);
        assert forall|k: int| #![trigger cur[k]] 0 <= k < cur.len() implies {
            let e = cur[k];
            &&& e.0 as int == u
            &&& (e.1 as int) < upto
            &&& m[u][e.1 as int] == 1
        } by {
            if k < prev.len() {
                assert(cur[k] == prev[k]);
            } else {
                assert(m[u][upto - 1] == 1);
                assert(cur[k] == ((u as usize, (upto - 1) as usize)));
            }
        }
    }
}

/// Every node a pay step enqueues is below the in-degree table's length.
pub proof fn lemma_new_zeros_sub(m: Seq<Seq<i32>>, u: int, d: Seq<int>, upto: int)
    requires
        0 <= upto <= usize::MAX,
    ensures
        forall|k: int|
            0 <= k < new_zeros_upto(m, u, d, upto).len() ==> (#[trigger] new_zeros_upto(
                m,
                u,
                d,
                upto,
            )[k] as int) < upto,
    decreases upto,
{
    if upto > 0 {
        lemma_new_zeros_sub(m, u, d, upto - 1);
        let prev = new_zeros_upto(m, u, d, upto - 1);
        let cur = new_zeros_upto(m, u, d, upto);
        assert forall|k: int| 0 <= k < cur.len() implies (cur[k] as int) < upto by {
            if k < prev.len() {
                assert(cur[k] == prev[k]);
            } else {
                assert(cur[k] == ((upto - 1) as usize));
            }
        }
    }
}

/// Every edge Kahn's recursion discovers is an edge of the matrix between
/// nodes of the graph.
pub proof fn lemma_kahn_sub(m: Seq<Seq<i32>>, queue: Seq<usize>, d: Seq<int>, fuel: nat)
    requires
        m.len() <= usize::MAX,
        d.len() == m.len(),
        forall|p: int| 0 <= p < queue.len() ==> (#[trigger] queue[p] as int) < m.len(),
    ensures
        forall|k: int|
            0 <= k < kahn_rec(m, queue, d, fuel).len() ==> {
                let e = #[trigger] kahn_rec(m, queue, d, fuel)[k];
                &&& (e.0 as int) < m.len()
                &&& (e.1 as int) < m.len()
                &&& m[e.0 as int][e.1 as int] == 1
            },
    decreases fuel,
{
    if fuel > 0 && queue.len() > 0 {
        let u = queue[0] as int;
        lemma_row_edges_sub(m, u, m.len() as int);
        lemma_new_zeros_sub(m, u, d, d.len() as int);
        let q2 = queue.drop_first() + crate::transitive_reduction::new_zeros(m, u, d);
        assert forall|p: int| 0 <= p < q2.len() implies (#[trigger] q2[p] as int) < m.len() by {
            if p < queue.drop_first().len() {
                assert(q2[p] == queue[p + 1]);
            } else {
                assert(q2[p] == crate::transitive_reduction::new_zeros(m, u, d)[p - (queue.len()
                    - 1)]);
            }
        }
        lemma_kahn_sub(m, q2, crate::transitive_reduction::dec_row(m, u, d), (fuel - 1) as nat);
        let re = crate::transitive_reduction::row_edges(m, u);
        let rest = kahn_rec(
            m,
            q2,
            crate::transitive_reduction::dec_row(m, u, d),
            (fuel - 1) as nat,
        );
        assert forall|k: int|
            #![trigger kahn_rec(m, queue, d, fuel)[k]]
            0 <= k < kahn_rec(m, queue, d, fuel).len() implies {
            let e = kahn_rec(m, queue, d, fuel)[k];
            &&& (e.0 as int) < m.len()
            &&& (e.1 as int) < m.len()
            &&& m[e.0 as int][e.1 as int] == 1
        } by {
            if k < re.len() {
                assert(kahn_rec(m, queue, d, fuel)[k] == re[k]);
            } else {
                assert(kahn_rec(m, queue, d, fuel)[k] == rest[k - re.len()]);
            }
        }
    }
}

/// Every node the initial ready queue holds is a node of the graph.
pub proof fn lemma_init_queue_sub(m: Seq<Seq<i32>>, upto: int)
    requires
        0 <= upto <= usize::MAX,
    ensures
        forall|k: int|
            0 <= k < crate::transitive_reduction::init_queue_upto(m, upto).len() ==> (
            #[trigger] crate::transitive_reduction::init_queue_upto(m, upto)[k] as int) < upto,
    decreases upto,
{
    if upto > 0 {
        lemma_init_queue_sub(m, upto - 1);
        let prev = crate::transitive_reduction::init_queue_upto(m, upto - 1);
        let cur = crate::transitive_reduction::init_queue_upto(m, upto);
        assert forall|k: int| 0 <= k < cur.len() implies (cur[k] as int) < upto by {
            if k < prev.len() {
                assert(cur[k] == prev[k]);
            } else {
                assert(cur[k] == ((upto - 1) as usize));
            }
        }
    }
}

/// Every edge in the discovery order of a whole run is an edge of the
/// matrix between nodes of the graph.
pub proof fn lemma_kahn_spec_sub(m: Seq<Seq<i32>>)
    requires
        m.len() <= usize::MAX,
    ensures
        forall|k: int|
            0 <= k < kahn_spec(m).len() ==> {
                let e = #[trigger] kahn_spec(m)[k];
                &&& (e.0 as int) < m.len()
                &&& (e.1 as int) < m.len()
                &&& m[e.0 as int][e.1 as int] == 1
            },
{
    lemma_init_queue_sub(m, m.len() as int);
    lemma_kahn_sub(
        m,
        crate::transitive_reduction::init_queue(m),
        crate::transitive_reduction::init_indeg(m),
        m.len(),
    );
}

/// Every surviving edge was discovered.
pub proof fn lemma_keep_first_sub(ord: Seq<(usize, usize)>, upto: int)
    ensures
        forall|q: int|
            0 <= q < keep_first_upto(ord, upto).len() ==> exists|i: int|
                0 <= i < upto && (#[trigger] keep_first_upto(ord, upto)[q]) == ord[i],
    decreases upto,
{
    if upto > 0 {
        lemma_keep_first_sub(ord, upto - 1);
        assert forall|q: int| 0 <= q < keep_first_upto(ord, upto).len() implies exists|i: int|
            0 <= i < upto && (#[trigger] keep_first_upto(ord, upto)[q]) == ord[i] by {
            if q < keep_first_upto(ord, upto - 1).len() {
                assert(keep_first_upto(ord, upto)[q] == keep_first_upto(ord, upto - 1)[q]);
            } else {
                assert(keep_first_upto(ord, upto)[q] == ord[upto - 1]);
            }
        }
    }
}

/// Transitive reduction preserves the matrix's shape and only removes
/// edges.
pub proof fn lemma_tr_subset(m: Seq<Seq<i32>>)
    requires
        m.len() <= usize::MAX,
    ensures
        tr_pipeline(m).len() == m.len(),
        forall|i: int| 0 <= i < m.len() ==> (#[trigger] tr_pipeline(m)[i]).len() == m.len(),
        forall|i: int, j: int|
            0 <= i < m.len() && 0 <= j < m.len() ==> ((#[trigger] tr_pipeline(m)[i][j]) == 0
                || tr_pipeline(m)[i][j] == 1),
        forall|i: int, j: int|
            0 <= i < m.len() && 0 <= j < m.len() ==> (#[trigger] tr_pipeline(m)[i][j] == 1 ==> m[i][j]
                == 1),
{
    let kept = keep_first(kahn_spec(m));
    lemma_kahn_spec_sub(m);
    lemma_keep_first_sub(kahn_spec(m), kahn_spec(m).len() as int);
    assert forall|i: int, j: int|
        0 <= i < m.len() && 0 <= j < m.len() implies (#[trigger] tr_pipeline(m)[i][j] == 1 ==> m[i][j]
        == 1) by {
        if tr_pipeline(m)[i][j] == 1 {
            assert(contains_pair(kept, i, j));
            let k = choose|k: int| 0 <= k < kept.len() && kept[k] == ((i as usize, j as usize));
            let k2 = choose|k2: int| 0 <= k2 < kahn_spec(m).len() && kept[k] == kahn_spec(m)[k2];
            assert(m[kahn_spec(m)[k2].0 as int][kahn_spec(m)[k2].1 as int] == 1);
        }
    }
}

/// Changing one cell changes one column count by the cell's delta.
pub proof fn lemma_col_cell(m: Seq<Seq<i32>>, i: int, j: int, x: i32, t: int, upto: int)
    requires
        0 <= i < m.len(),
        0 <= j < m[i].len(),
        0 <= t < m[i].len(),
        upto <= m.len(),
    ensures
        col_count(cell_set(m, i, j, x), t, upto) == col_count(m, t, upto) + if t == j && i < upto {
            (if x == 1 {
                1int
            } else {
                0int
            }) - (if m[i][j] == 1 {
                1int
            } else {
                0int
            })
        } else {
            0int
        },
    decreases upto,
{
    if upto > 0 {
        lemma_col_cell(m, i, j, x, t, upto - 1);
        if upto - 1 == i {
            assert(cell_set(m, i, j, x)[i] == m[i].update(j, x));
        } else {
            assert(cell_set(m, i, j, x)[upto - 1] == m[upto - 1]);
        }
    }
}

/// Clearing a row changes each column count by that row's cell.
pub proof fn lemma_col_clear_row(m: Seq<Seq<i32>>, c: int, t: int, upto: int)
    requires
        0 <= c < m.len(),
        0 <= t < m[c].len(),
        upto <= m.len(),
    ensures
        col_count(clear_row_spec(m, c), t, upto) == col_count(m, t, upto) - if c < upto && m[c][t]
            == 1 {
            1int
        } else {
            0int
        },
    decreases upto,
{
    if upto > 0 {
        lemma_col_clear_row(m, c, t, upto - 1);
        if upto - 1 == c {
            assert(clear_row_spec(m, c)[c] == zero_row(m[c].len() as int));
            assert(clear_row_spec(m, c)[c][t] == 0);
        } else {
            assert(clear_row_spec(m, c)[upto - 1] == m[upto - 1]);
        }
    }
}

/// Two distinct one-entries in a row force an out-degree of at least two.
pub proof fn lemma_row_two(m: Seq<Seq<i32>>, u: int, a: int, b: int, upto: int)
    requires
        0 <= a < b < upto,
        m[u][a] == 1,
        m[u][b] == 1,
    ensures
        row_count(m, u, upto) >= 2,
    decreases upto,
{
    if b == upto - 1 {
        lemma_row_ge_one(m, u, a, upto - 1);
    } else {
        lemma_row_two(m, u, a, b, upto - 1);
    }
}

pub proof fn lemma_row_ge_one(m: Seq<Seq<i32>>, u: int, a: int, upto: int)
    requires
        0 <= a < upto,
        m[u][a] == 1,
    ensures
        row_count(m, u, upto) >= 1,
    decreases upto,
{
    lemma_row_count_nonneg(m, u, a);
    if a < upto - 1 {
        lemma_row_ge_one(m, u, a, upto - 1);
    }
}

/// An out-degree of one with a known target means every other column of
/// that row is empty.
pub proof fn lemma_row_one_unique(m: Seq<Seq<i32>>, u: int, s: int, upto: int)
    requires
        row_count(m, u, upto) == 1,
        0 <= s < upto,
        m[u][s] == 1,
    ensures
        forall|j: int| 0 <= j < upto && j != s ==> m[u][j] != 1,
{
    assert forall|j: int| 0 <= j < upto && j != s implies m[u][j] != 1 by {
        if m[u][j] == 1 {
            if j < s {
                lemma_row_two(m, u, j, s, upto);
            } else {
                lemma_row_two(m, u, s, j, upto);
            }
        }
    }
}

/// The name of the resolution variable for node `i`.
pub open spec fn var_name_text(i: int) -> Seq<char> {
    seq!['x'] + dec_spec(i)
}

/// What both backends promise. On success the DAG is fully isolated and the
/// specification has one step per node, emitted by an actual rewrite
/// sequence followed by `(c, 0, 1)` steps for the nodes that were already
/// isolated when the rewrites finished. On failure the DAG has stalled
/// without being fully isolated and no partial specification is returned.
pub open spec fn resolve_post(
    m0: Seq<Seq<i32>>,
    m1: Seq<Seq<i32>>,
    s: IntegralSpec,
    ok: bool,
) -> bool {
    let n = m0.len() as int;
    &&& m1.len() == n
    &&& if ok {
        &&& all_zero(m1)
        &&& s.elements@.len() == n
        &&& s.var_names@.len() == n
        &&& (forall|i: int|
            0 <= i < n ==> (#[trigger] s.var_names@[i])@ == var_name_text(i))
        &&& s.valid()
        &&& exists|k: int|
            0 <= k <= n && #[trigger] bit_reaches(m0, m1, s.elements@.subrange(0, k)) && (forall|
                i: int,
            |
                k <= i < n ==> (#[trigger] s.elements@[i]).1 == Bound::Zero && s.elements@[i].2
                    == Bound::One)
    } else {
        &&& stalled(m1)
        &&& !all_zero(m1)
        &&& s.elements@.len() == 0
        &&& s.var_names@.len() == 0
        &&& exists|es: Seq<(usize, Bound, Bound)>| bit_reaches(m0, m1, es)
    }
}

/// A backend of the resolution engine.
pub trait Resolver {
    /// The ghost adjacency matrix of the backend's current DAG.
    spec fn dag(&self) -> Seq<Seq<i32>>;

    /// The backend's representation invariant; it must include a
    /// well-formed, acyclic DAG.
    spec fn wf(&self) -> bool;

    proof fn wf_implies_dag_wf(&self)
        requires
            self.wf(),
        ensures
            dag_wf(self.dag()),
            acyclic(self.dag()),
    ;

    /// Rewrites the DAG until fully isolated or stalled, returning the
    /// emitted integral specification and whether resolution succeeded.
    fn resolve(&mut self) -> (r: (IntegralSpec, bool))
        requires
            old(self).wf(),
        ensures
            final(self).wf(),
            resolve_post(old(self).dag(), final(self).dag(), r.0, r.1),
    ;
}

/// Two distinct one-entries in a column force an in-degree of at least two.
pub proof fn lemma_col_two(m: Seq<Seq<i32>>, t: int, a: int, b: int, upto: int)
    requires
        0 <= a < b < upto,
        m[a][t] == 1,
        m[b][t] == 1,
    ensures
        col_count(m, t, upto) >= 2,
    decreases upto,
{
    if b == upto - 1 {
        crate::resolution::lemma_row_count_nonneg(m, 0, 0);
        lemma_col_ge_one(m, t, a, upto - 1);
    } else {
        lemma_col_two(m, t, a, b, upto - 1);
    }
}

pub proof fn lemma_col_ge_one(m: Seq<Seq<i32>>, t: int, a: int, upto: int)
    requires
        0 <= a < upto,
        m[a][t] == 1,
    ensures
        col_count(m, t, upto) >= 1,
    decreases upto,
{
    lemma_col_nonneg(m, t, a);
    if a < upto - 1 {
        lemma_col_ge_one(m, t, a, upto - 1);
    }
}

pub proof fn lemma_col_nonneg(m: Seq<Seq<i32>>, t: int, upto: int)
    ensures
        col_count(m, t, upto) >= 0,
    decreases upto,
{
    if upto > 0 {
        lemma_col_nonneg(m, t, upto - 1);
    }
}

/// A zero in-degree means a pointwise empty column.
pub proof fn lemma_col_zero_pointwise(m: Seq<Seq<i32>>, t: int, upto: int)
    requires
        col_count(m, t, upto) == 0,
    ensures
        forall|i: int| 0 <= i < upto ==> m[i][t] != 1,
    decreases upto,
{
    if upto > 0 {
        lemma_col_nonneg(m, t, upto - 1);
        lemma_col_zero_pointwise(m, t, upto - 1);
    }
}

/// An in-degree of one with a known source means every other row is empty
/// at that column.
pub proof fn lemma_col_one_unique(m: Seq<Seq<i32>>, t: int, p: int, upto: int)
    requires
        col_count(m, t, upto) == 1,
        0 <= p < upto,
        m[p][t] == 1,
    ensures
        forall|i: int| 0 <= i < upto && i != p ==> m[i][t] != 1,
{
    assert forall|i: int| 0 <= i < upto && i != p implies m[i][t] != 1 by {
        if m[i][t] == 1 {
            if i < p {
                lemma_col_two(m, t, i, p, upto);
            } else {
                lemma_col_two(m, t, p, i, upto);
            }
        }
    }
}

/// A zero out-degree means a pointwise empty row.
pub proof fn lemma_row_zero_pointwise(m: Seq<Seq<i32>>, u: int, upto: int)
    requires
        row_count(m, u, upto) == 0,
    ensures
        forall|j: int| 0 <= j < upto ==> m[u][j] != 1,
    decreases upto,
{
    if upto > 0 {
        crate::resolution::lemma_row_count_nonneg(m, u, upto - 1);
        lemma_row_zero_pointwise(m, u, upto - 1);
    }
}

/// Node `c` has no edges at all.
pub open spec fn node_isolated(m: Seq<Seq<i32>>, c: int) -> bool {
    &&& forall|j: int| 0 <= j < m.len() ==> m[c][j] != 1
    &&& forall|i: int| 0 <= i < m.len() ==> m[i][c] != 1
}

/// Node `w` is the integrated variable of some of the first `upto` steps.
pub open spec fn var_in_upto(es: Seq<(usize, Bound, Bound)>, w: int, upto: int) -> bool {
    exists|p: int| 0 <= p < upto && (#[trigger] es[p]).0 as int == w
}

/// The number of set flags below `upto`.
pub open spec fn count_true(s: Seq<bool>, upto: int) -> int
    decreases upto,
{
    if upto <= 0 {
        0
    } else {
        count_true(s, upto - 1) + if s[upto - 1] {
            1int
        } else {
            0int
        }
    }
}

pub proof fn lemma_count_true_update(s: Seq<bool>, c: int, upto: int)
    requires
        0 <= c < s.len(),
        upto <= s.len(),
        !s[c],
    ensures
        count_true(s.update(c, true), upto) == count_true(s, upto) + if c < upto {
            1int
        } else {
            0int
        },
    decreases upto,
{
    if upto > 0 {
        lemma_count_true_update(s, c, upto - 1);
    }
}

/// The trailing `(c, 0, 1)` steps for the unemitted nodes below `upto`.
pub open spec fn fills_upto(em: Seq<bool>, upto: int) -> Seq<(usize, Bound, Bound)>
    decreases upto,
{
    if upto <= 0 {
        Seq::<(usize, Bound, Bound)>::empty()
    } else {
        fills_upto(em, upto - 1) + if !em[upto - 1] {
            seq![(((upto - 1) as usize), Bound::Zero, Bound::One)]
        } else {
            Seq::<(usize, Bound, Bound)>::empty()
        }
    }
}

pub proof fn lemma_fills_facts(em: Seq<bool>, upto: int)
    requires
        0 <= upto <= usize::MAX,
    ensures
        forall|q: int|
            0 <= q < fills_upto(em, upto).len() ==> {
                let e = #[trigger] fills_upto(em, upto)[q];
                &&& (e.0 as int) < upto
                &&& !em[e.0 as int]
                &&& e.1 == Bound::Zero
                &&& e.2 == Bound::One
            },
        forall|q1: int, q2: int|
            0 <= q1 < q2 < fills_upto(em, upto).len() ==> (#[trigger] fills_upto(em, upto)[q1]).0
                < (#[trigger] fills_upto(em, upto)[q2]).0,
        forall|w: int|
            0 <= w < upto && !em[w] ==> exists|q: int|
                0 <= q < fills_upto(em, upto).len() && (#[trigger] fills_upto(em, upto)[q]).0 as int
                    == w,
        fills_upto(em, upto).len() == upto - count_true(em, upto),
    decreases upto,
{
    if upto > 0 {
        lemma_fills_facts(em, upto - 1);
        let prev = fills_upto(em, upto - 1);
        let cur = fills_upto(em, upto);
        assert forall|q: int| #![trigger cur[q]] 0 <= q < cur.len() implies {
            let e = cur[q];
            &&& (e.0 as int) < upto
            &&& !em[e.0 as int]
            &&& e.1 == Bound::Zero
            &&& e.2 == Bound::One
        } by {
            if q < prev.len() {
                assert(cur[q] == prev[q]);
            } else {
                assert(cur[q] == ((((upto - 1) as usize), Bound::Zero, Bound::One)));
            }
        }
        assert forall|w: int| 0 <= w < upto && !em[w] implies exists|q: int|
            0 <= q < cur.len() && (#[trigger] cur[q]).0 as int == w by {
            if w < upto - 1 {
                let q = choose|q: int| 0 <= q < prev.len() && (#[trigger] prev[q]).0 as int == w;
                assert(cur[q] == prev[q]);
            } else {
                assert(cur[cur.len() - 1].0 as int == upto - 1);
            }
        }
        assert forall|q1: int, q2: int| 0 <= q1 < q2 < cur.len() implies (#[trigger] cur[q1]).0 < (
        #[trigger] cur[q2]).0 by {
            if q2 < prev.len() {
                assert(cur[q1] == prev[q1] && cur[q2] == prev[q2]);
            } else {
                assert(cur[q1] == prev[q1]);
            }
        }
    }
}

pub proof fn lemma_count_true_le(s: Seq<bool>, upto: int)
    ensures
        0 <= count_true(s, upto),
        count_true(s, upto) <= (if upto >= 0 {
            upto
        } else {
            0int
        }),
    decreases upto,
{
    if upto > 0 {
        lemma_count_true_le(s, upto - 1);
    }
}

/// How appending a step changes which variables occur among a prefix.
pub proof fn lemma_var_in_push(es: Seq<(usize, Bound, Bound)>, e: (usize, Bound, Bound), w: int, k: int)
    requires
        0 <= k <= es.len() + 1,
    ensures
        k <= es.len() ==> (var_in_upto(es.push(e), w, k) == var_in_upto(es, w, k)),
        k == es.len() + 1 ==> (var_in_upto(es.push(e), w, k) <==> (var_in_upto(es, w, es.len() as int)
            || e.0 as int == w)),
{
    if k <= es.len() {
        if var_in_upto(es.push(e), w, k) {
            let p = choose|p: int| 0 <= p < k && (#[trigger] es.push(e)[p]).0 as int == w;
            assert(es[p] == es.push(e)[p]);
            assert(var_in_upto(es, w, k));
        }
        if var_in_upto(es, w, k) {
            let p = choose|p: int| 0 <= p < k && (#[trigger] es[p]).0 as int == w;
            assert(es.push(e)[p] == es[p]);
            assert(var_in_upto(es.push(e), w, k));
        }
    } else {
        if var_in_upto(es.push(e), w, k) {
            let p = choose|p: int| 0 <= p < k && (#[trigger] es.push(e)[p]).0 as int == w;
            if p < es.len() {
                assert(es[p] == es.push(e)[p]);
                assert(var_in_upto(es, w, es.len() as int));
            } else {
                assert(es.push(e)[p] == e);
            }
        }
        if var_in_upto(es, w, es.len() as int) {
            let p = choose|p: int| 0 <= p < es.len() && (#[trigger] es[p]).0 as int == w;
            assert(es.push(e)[p] == es[p]);
            assert(var_in_upto(es.push(e), w, k));
        }
        if e.0 as int == w {
            assert(es.push(e)[es.len() as int] == e);
            assert(var_in_upto(es.push(e), w, k));
        }
    }
}

/// A bound of step `i` references a variable that no step up to and
/// including `i` integrates.
pub open spec fn bound_track(
    es: Seq<(usize, Bound, Bound)>,
    i: int,
    b: Bound,
    n: int,
) -> bool {
    match b {
        Bound::Var(w) => (w as int) < n && !var_in_upto(es, w as int, i + 1),
        _ => true,
    }
}

pub open spec fn bounds_track(es: Seq<(usize, Bound, Bound)>, i: int, n: int) -> bool {
    bound_track(es, i, es[i].1, n) && bound_track(es, i, es[i].2, n)
}

pub proof fn lemma_count_true_zero(s: Seq<bool>, upto: int)
    requires
        forall|i: int| 0 <= i < upto ==> !s[i],
    ensures
        count_true(s, upto) == 0,
    decreases upto,
{
    if upto > 0 {
        lemma_count_true_zero(s, upto - 1);
    }
}

/// A bound variable that no step up to `i` integrates is integrated later:
/// by a later rewrite step if it was ever emitted, by its trailing
/// `(w, 0, 1)` step otherwise.
pub proof fn lemma_bound_resolves_later(
    spec: IntegralSpec,
    es_done: Seq<(usize, Bound, Bound)>,
    fills: Seq<(usize, Bound, Bound)>,
    em: Seq<bool>,
    i: int,
    b: Bound,
    n: int,
)
    requires
        spec.elements@ == es_done + fills,
        es_done.len() + fills.len() == n,
        0 <= i < es_done.len(),
        bound_track(es_done, i, b, n),
        forall|c: int|
            0 <= c < n ==> (em[c] <==> var_in_upto(es_done, c, es_done.len() as int)),
        forall|w: int|
            0 <= w < n && !em[w] ==> exists|q: int|
                0 <= q < fills.len() && (#[trigger] fills[q]).0 as int == w,
    ensures
        spec.bound_valid_at(b, i),
{
    match b {
        Bound::Zero => {},
        Bound::One => {},
        Bound::Var(w) => {
            let wi = w as int;
            if em[wi] {
                let q = choose|q: int|
                    0 <= q < es_done.len() && (#[trigger] es_done[q]).0 as int == wi;
                assert(!var_in_upto(es_done, wi, i + 1));
                assert(q > i) by {
                    if q <= i {
                        assert(var_in_upto(es_done, wi, i + 1));
                    }
                }
                assert(spec.elements@[q] == es_done[q]);
                assert(i < q < spec.elements@.len() && (spec.elements@[q]).0 == w);
            } else {
                let q = choose|q: int| 0 <= q < fills.len() && (#[trigger] fills[q]).0 as int == wi;
                let qq = es_done.len() + q;
                assert(spec.elements@[qq] == fills[q]);
                assert(i < qq < spec.elements@.len() && (spec.elements@[qq]).0 == w);
            }
        },
    }
}

/// As `lemma_emit_step`, for a step whose two bounds reference the live
/// nodes `w1` and `w2`.
pub proof fn lemma_emit_step2(
    es0: Seq<(usize, Bound, Bound)>,
    em0: Seq<bool>,
    e: (usize, Bound, Bound),
    c: int,
    w1: int,
    w2: int,
    n: int,
)
    requires
        em0.len() == n,
        es0.len() == count_true(em0, n),
        es0.len() <= n,
        n <= usize::MAX,
        0 <= c < n,
        0 <= w1 < n,
        0 <= w2 < n,
        w1 != c,
        w2 != c,
        e.0 as int == c,
        !em0[c],
        !em0[w1],
        !em0[w2],
        e.1 == Bound::Var(w1 as usize),
        e.2 == Bound::Var(w2 as usize),
        forall|cc: int|
            0 <= cc < n ==> ((#[trigger] em0[cc]) <==> var_in_upto(es0, cc, es0.len() as int)),
        forall|p: int, q: int|
            0 <= p < q < es0.len() ==> (#[trigger] es0[p]).0 != (#[trigger] es0[q]).0,
        forall|i: int| 0 <= i < es0.len() ==> ((#[trigger] es0[i]).0 as int) < n,
        forall|i: int| 0 <= i < es0.len() ==> bounds_track(es0, i, n),
    ensures
        es0.push(e).len() == count_true(em0.update(c, true), n),
        es0.push(e).len() <= n,
        forall|cc: int|
            0 <= cc < n ==> ((#[trigger] em0.update(c, true)[cc]) <==> var_in_upto(
                es0.push(e),
                cc,
                es0.push(e).len() as int,
            )),
        forall|p: int, q: int|
            0 <= p < q < es0.push(e).len() ==> (#[trigger] es0.push(e)[p]).0 != (#[trigger] es0.push(
                e,
            )[q]).0,
        forall|i: int| 0 <= i < es0.push(e).len() ==> ((#[trigger] es0.push(e)[i]).0 as int) < n,
        forall|i: int| 0 <= i < es0.push(e).len() ==> bounds_track(es0.push(e), i, n),
{
    lemma_count_true_update(em0, c, n);
    lemma_count_true_le(em0.update(c, true), n);
    let es = es0.push(e);
    assert forall|cc: int| 0 <= cc < n implies ((#[trigger] em0.update(c, true)[cc]) <==> var_in_upto(
        es,
        cc,
        es.len() as int,
    )) by {
        lemma_var_in_push(es0, e, cc, es0.len() + 1int);
    }
    assert forall|p: int, q: int| 0 <= p < q < es.len() implies (#[trigger] es[p]).0 != (
    #[trigger] es[q]).0 by {
        if q < es0.len() {
            assert(es[p] == es0[p] && es[q] == es0[q]);
        } else {
            assert(es[q] == e);
            assert(es[p] == es0[p]);
            assert(es0[p].0 as int != c) by {
                if es0[p].0 as int == c {
                    assert(var_in_upto(es0, c, es0.len() as int));
                }
            }
        }
    }
    assert forall|i: int| 0 <= i < es.len() implies ((#[trigger] es[i]).0 as int) < n by {
        if i < es0.len() {
            assert(es[i] == es0[i]);
        } else {
            assert(es[i] == e);
        }
    }
    assert forall|i: int| 0 <= i < es.len() implies bounds_track(es, i, n) by {
        if i < es0.len() {
            assert(es[i] == es0[i]);
            assert(bounds_track(es0, i, n));
            lemma_var_in_push_bound(es0, e, es0[i].1, i, n);
            lemma_var_in_push_bound(es0, e, es0[i].2, i, n);
        } else {
            assert(es[i] == e);
            assert(!var_in_upto(es0, w1, es0.len() as int));
            assert(!var_in_upto(es0, w2, es0.len() as int));
            lemma_var_in_push(es0, e, w1, es0.len() + 1int);
            lemma_var_in_push(es0, e, w2, es0.len() + 1int);
            assert(!var_in_upto(es, w1, i + 1));
            assert(!var_in_upto(es, w2, i + 1));
            assert(((w1 as usize) as int) == w1);
            assert(((w2 as usize) as int) == w2);
            assert(bound_track(es, i, e.1, n));
            assert(bound_track(es, i, e.2, n));
        }
    }
}

/// Shared bookkeeping of emitting one step whose single bound references
/// the live node `w`.
pub proof fn lemma_emit_step(
    es0: Seq<(usize, Bound, Bound)>,
    em0: Seq<bool>,
    e: (usize, Bound, Bound),
    c: int,
    w: int,
    n: int,
)
    requires
        em0.len() == n,
        es0.len() == count_true(em0, n),
        es0.len() <= n,
        n <= usize::MAX,
        0 <= c < n,
        0 <= w < n,
        w != c,
        e.0 as int == c,
        !em0[c],
        !em0[w],
        (e.1 == Bound::Zero && e.2 == Bound::Var(w as usize)) || (e.1 == Bound::Var(w as usize)
            && e.2 == Bound::One),
        forall|cc: int|
            0 <= cc < n ==> ((#[trigger] em0[cc]) <==> var_in_upto(es0, cc, es0.len() as int)),
        forall|p: int, q: int|
            0 <= p < q < es0.len() ==> (#[trigger] es0[p]).0 != (#[trigger] es0[q]).0,
        forall|i: int| 0 <= i < es0.len() ==> ((#[trigger] es0[i]).0 as int) < n,
        forall|i: int| 0 <= i < es0.len() ==> bounds_track(es0, i, n),
    ensures
        es0.push(e).len() == count_true(em0.update(c, true), n),
        es0.push(e).len() <= n,
        forall|cc: int|
            0 <= cc < n ==> ((#[trigger] em0.update(c, true)[cc]) <==> var_in_upto(
                es0.push(e),
                cc,
                es0.push(e).len() as int,
            )),
        forall|p: int, q: int|
            0 <= p < q < es0.push(e).len() ==> (#[trigger] es0.push(e)[p]).0 != (#[trigger] es0.push(
                e,
            )[q]).0,
        forall|i: int| 0 <= i < es0.push(e).len() ==> ((#[trigger] es0.push(e)[i]).0 as int) < n,
        forall|i: int| 0 <= i < es0.push(e).len() ==> bounds_track(es0.push(e), i, n),
{
    lemma_count_true_update(em0, c, n);
    lemma_count_true_le(em0.update(c, true), n);
    let es = es0.push(e);
    assert forall|cc: int| 0 <= cc < n implies ((#[trigger] em0.update(c, true)[cc]) <==> var_in_upto(
        es,
        cc,
        es.len() as int,
    )) by {
        lemma_var_in_push(es0, e, cc, es0.len() + 1int);
    }
    assert forall|p: int, q: int| 0 <= p < q < es.len() implies (#[trigger] es[p]).0 != (
    #[trigger] es[q]).0 by {
        if q < es0.len() {
            assert(es[p] == es0[p] && es[q] == es0[q]);
        } else {
            assert(es[q] == e);
            assert(es[p] == es0[p]);
            assert(es0[p].0 as int != c) by {
                if es0[p].0 as int == c {
                    assert(var_in_upto(es0, c, es0.len() as int));
                }
            }
        }
    }
    assert forall|i: int| 0 <= i < es.len() implies ((#[trigger] es[i]).0 as int) < n by {
        if i < es0.len() {
            assert(es[i] == es0[i]);
        } else {
            assert(es[i] == e);
        }
    }
    assert forall|i: int| 0 <= i < es.len() implies bounds_track(es, i, n) by {
        if i < es0.len() {
            assert(es[i] == es0[i]);
            assert(bounds_track(es0, i, n));
            lemma_var_in_push_bound(es0, e, es0[i].1, i, n);
            lemma_var_in_push_bound(es0, e, es0[i].2, i, n);
        } else {
            assert(es[i] == e);
            assert(!var_in_upto(es0, w, es0.len() as int));
            lemma_var_in_push(es0, e, w, es0.len() + 1int);
            assert(!var_in_upto(es, w, i + 1));
            assert(((w as usize) as int) == w);
            assert(bound_track(es, i, e.1, n));
            assert(bound_track(es, i, e.2, n));
        }
    }
}

/// A bound that tracked over `es0` still tracks after a step is appended.
pub proof fn lemma_var_in_push_bound(
    es0: Seq<(usize, Bound, Bound)>,
    e: (usize, Bound, Bound),
    b: Bound,
    i: int,
    n: int,
)
    requires
        0 <= i < es0.len(),
        bound_track(es0, i, b, n),
    ensures
        bound_track(es0.push(e), i, b, n),
{
    match b {
        Bound::Var(w) => {
            lemma_var_in_push(es0, e, w as int, i + 1);
        },
        _ => {},
    }
}

/// Builds the final specification from the rewrite-emitted steps and the
/// emission flags: one variable name per node, the emitted steps first, and
/// a trailing `(c, 0, 1)` step for every node never emitted. The result is
/// a valid specification with one step per node.
pub fn assemble_spec(entries: Vec<(usize, Bound, Bound)>, emitted: &Vec<bool>) -> (r: IntegralSpec)
    requires
        entries@.len() == count_true(emitted@, emitted@.len() as int),
        entries@.len() <= emitted@.len(),
        forall|c: int|
            0 <= c < emitted@.len() ==> ((#[trigger] emitted@[c]) <==> var_in_upto(
                entries@,
                c,
                entries@.len() as int,
            )),
        forall|p: int, q: int|
            0 <= p < q < entries@.len() ==> (#[trigger] entries@[p]).0 != (#[trigger] entries@[q]).0,
        forall|i: int| 0 <= i < entries@.len() ==> ((#[trigger] entries@[i]).0 as int) < emitted@.len(),
        forall|i: int| 0 <= i < entries@.len() ==> bounds_track(entries@, i, emitted@.len() as int),
    ensures
        r.elements@.len() == emitted@.len(),
        r.var_names@.len() == emitted@.len(),
        forall|i: int|
            0 <= i < emitted@.len() ==> (#[trigger] r.var_names@[i])@ == var_name_text(i),
        r.valid(),
        r.elements@.subrange(0, entries@.len() as int) == entries@,
        forall|i: int|
            entries@.len() <= i < emitted@.len() ==> (#[trigger] r.elements@[i]).1 == Bound::Zero
                && r.elements@[i].2 == Bound::One,
{
    let n = emitted.len();
    let ghost es_done = entries@;
    let ghost em_done = emitted@;
    let mut names: Vec<String> = Vec::new();
    let mut iv: usize = 0;
    while iv < n
        invariant
            0 <= iv <= n,
            names@.len() == iv,
            forall|q: int| 0 <= q < iv ==> (#[trigger] names@[q])@ == var_name_text(q),
        decreases n - iv,
    {
        let mut nm = String::from_str("x");
        let digits = u64_to_string(iv as u64);
        nm.append(digits.as_str());
        proof {
            reveal_strlit("x");
            assert(nm@ =~= var_name_text(iv as int));
        }
        names.push(nm);
        iv = iv + 1;
    }
    let mut elements = entries;
    let mut fc: usize = 0;
    while fc < n
        invariant
            n == emitted@.len(),
            emitted@ == em_done,
            0 <= fc <= n,
            elements@ == es_done + fills_upto(em_done, fc as int),
        decreases n - fc,
    {
        if !emitted[fc] {
            elements.push((fc, Bound::Zero, Bound::One));
            proof {
                assert(elements@ =~= es_done + fills_upto(em_done, fc as int + 1));
            }
        } else {
            proof {
                assert(elements@ =~= es_done + fills_upto(em_done, fc as int + 1));
            }
        }
        fc = fc + 1;
    }
    let spec = IntegralSpec { var_names: names, elements };
    proof {
        lemma_fills_facts(em_done, n as int);
        let fills = fills_upto(em_done, n as int);
        let es = spec.elements@;
        assert(es == es_done + fills);
        assert(es.len() == n) by {
            lemma_count_true_le(em_done, n as int);
        }
        // Every step's variable is in range and no variable repeats.
        assert forall|i: int| 0 <= i < es.len() implies ((#[trigger] es[i]).0 as int) < n by {
            if i < es_done.len() {
                assert(es[i] == es_done[i]);
            } else {
                assert(es[i] == fills[i - es_done.len()]);
            }
        }
        assert forall|i: int, jq: int| 0 <= i < jq < es.len() implies (#[trigger] es[i]).0 != (
        #[trigger] es[jq]).0 by {
            if jq < es_done.len() {
                assert(es[i] == es_done[i] && es[jq] == es_done[jq]);
            } else if i >= es_done.len() {
                assert(es[i] == fills[i - es_done.len()] && es[jq] == fills[jq - es_done.len()]);
            } else {
                assert(es[i] == es_done[i] && es[jq] == fills[jq - es_done.len()]);
                let w = es[jq].0 as int;
                assert(!em_done[w]);
                assert(!var_in_upto(es_done, w, es_done.len() as int));
                assert(es_done[i].0 as int != w) by {
                    if es_done[i].0 as int == w {
                        assert(var_in_upto(es_done, w, es_done.len() as int));
                    }
                }
            }
        }
        // Every referenced bound variable is integrated strictly later.
        assert forall|i: int| 0 <= i < es.len() implies {
            &&& spec.bound_valid_at(es[i].1, i)
            &&& spec.bound_valid_at(es[i].2, i)
        } by {
            if i < es_done.len() {
                assert(es[i] == es_done[i]);
                assert(bounds_track(es_done, i, n as int));
                lemma_bound_resolves_later(spec, es_done, fills, em_done, i, es_done[i].1, n as int);
                lemma_bound_resolves_later(spec, es_done, fills, em_done, i, es_done[i].2, n as int);
            } else {
                assert(es[i] == fills[i - es_done.len()]);
                assert(es[i].1 == Bound::Zero && es[i].2 == Bound::One);
            }
        }
        assert(spec.valid());
        assert(es.subrange(0, es_done.len() as int) =~= es_done);
        assert forall|i: int| es_done.len() <= i < n implies (#[trigger] es[i]).1 == Bound::Zero
            && es[i].2 == Bound::One by {
            assert(es[i] == fills[i - es_done.len()]);
        }
    }
    proof {
        assert(spec.elements@.subrange(0, es_done.len() as int) =~= es_done);
    }
    spec
}


/// Resolves a backend's DAG and evaluates the resulting specification into
/// a linear-extension count: the shared driver both backends plug into for
/// cross-validation. On success the DAG is fully isolated and the count is
/// the specification's exact integral scaled by n!.
pub fn resolve_and_count<R: Resolver>(backend: &mut R, max_monos: usize) -> (r: Result<
    num_rational::BigRational,
    crate::integrator::EngineError,
>)
    requires
        old(backend).wf(),
    ensures
        final(backend).wf(),
        r is Ok ==> all_zero(final(backend).dag()),
        (r is Err && (r->Err_0 is UnresolvableDag)) ==> (stalled(final(backend).dag())
            && !all_zero(final(backend).dag())),
        r is Err ==> ((r->Err_0 is UnresolvableDag) || (r->Err_0 is StuckIntegral) || (
        r->Err_0 is ResourceExceeded)),
        r is Ok ==> exists|sp: IntegralSpec| #[trigger] resolve_post(
            old(backend).dag(),
            final(backend).dag(),
            sp,
            true,
        ) && exists|ps: Seq<Seq<(Seq<u64>, crate::frac::Frac)>>|
            #![all_triggers]
            crate::integrator::chain_ok(sp.elements@, ps) && crate::integrator::constant_form(
                ps.last(),
            ) && crate::rat::frac_of(r->Ok_0).equiv(
                ps.last()[0].1.mul_int(crate::maths::spec_factorial(sp.elements@.len())),
            ),
{
    let (spec, ok) = backend.resolve();
    if !ok {
        return Err(crate::integrator::EngineError::UnresolvableDag);
    }
    match crate::integrator::linear_extension_count(&spec, max_monos) {
        Ok(c) => {
            proof {
                let ps = choose|ps: Seq<Seq<(Seq<u64>, crate::frac::Frac)>>|
                    #![all_triggers]
                    crate::integrator::chain_ok(spec.elements@, ps)
                        && crate::integrator::constant_form(ps.last()) && crate::rat::frac_of(
                        c,
                    ).wf() && crate::rat::frac_of(c).equiv(
                        ps.last()[0].1.mul_int(crate::maths::spec_factorial(spec.elements@.len())),
                    );
                assert(resolve_post(old(backend).dag(), final(backend).dag(), spec, true)
                    && crate::integrator::chain_ok(spec.elements@, ps)
                    && crate::integrator::constant_form(ps.last()) && crate::rat::frac_of(
                    c,
                ).equiv(
                    ps.last()[0].1.mul_int(crate::maths::spec_factorial(spec.elements@.len())),
                ));
            }
            Ok(c)
        },
        Err(e) => Err(e),
    }
}

} // verus!
