//! Random DAG generators used to produce test and benchmark inputs: a graph
//! grows one node at a time, each new node receiving exactly one incoming
//! edge from a randomly chosen existing node, so every edge points from a
//! lower to a higher index and the result is acyclic by construction.

use crate::resolution::acyclic;
use crate::resolution::dag_wf;
use crate::resolution::zero_row;
use crate::transitive_reduction::matv;
use vstd::prelude::*;

verus! {

/// Relies on `rand::Rng::gen_range` over `0..n`: a uniformly drawn index
/// below `n`; the range must be non-empty.
#[verifier::external_body]
fn random_below(n: usize) -> (r: usize)
    requires
        n > 0,
    ensures
        r < n,
{
    rand::Rng::gen_range(&mut rand::thread_rng(), 0..n)
}

/// The matrix grown by one node whose single in-edge comes from node `k`.
pub open spec fn grow_model(m: Seq<Seq<i32>>, k: int) -> Seq<Seq<i32>> {
    Seq::new(
        (m.len() + 1) as nat,
        |i: int|
            if i < m.len() {
                m[i].push(
                    if i == k {
                        1i32
                    } else {
                        0i32
                    },
                )
            } else {
                zero_row(m.len() as int + 1)
            },
    )
}

/// Every edge points from a lower to a higher index.
pub open spec fn edges_upward(m: Seq<Seq<i32>>) -> bool {
    forall|u: int, v: int|
        0 <= u < m.len() && 0 <= v < m.len() && #[trigger] m[u][v] == 1 ==> u < v
}

/// Adds a new node to the graph: widens every row by one column, appends an
/// all-zero row, and draws one random existing node as the new node's
/// predecessor.
pub fn add_node(matrice: &mut Vec<Vec<i32>>)
    requires
        1 <= old(matrice)@.len() < usize::MAX,
        forall|i: int|
            0 <= i < old(matrice)@.len() ==> (#[trigger] matv(old(matrice)@)[i]).len() == old(
                matrice,
            )@.len(),
    ensures
        final(matrice)@.len() == old(matrice)@.len() + 1,
        exists|k: int|
            0 <= k < old(matrice)@.len() && matv(final(matrice)@) == grow_model(
                matv(old(matrice)@),
                k,
            ),
{
    let ghost m0 = matv(matrice@);
    let size = matrice.len();
    let mut i: usize = 0;
    while i < size
        invariant
            size == m0.len(),
            1 <= size < usize::MAX,
            matrice@.len() == size,
            forall|p: int| 0 <= p < size ==> (#[trigger] m0[p]).len() == size,
            0 <= i <= size,
            forall|p: int| i <= p < size ==> (#[trigger] matv(matrice@)[p]) == m0[p],
            forall|p: int|
                0 <= p < i ==> (#[trigger] matv(matrice@)[p]) == m0[p].push(0i32),
        decreases size - i,
    {
        proof {
            assert(matv(matrice@)[i as int] == matrice@[i as int]@);
        }
        let ghost pre = matrice@;
        let row = vec_row_mut(matrice, i);
        row.push(0);
        proof {
            assert forall|p: int| 0 <= p < size && p != i implies #[trigger] matv(matrice@)[p]
                == matv(pre)[p] by {
                assert(matrice@[p] == pre[p]);
            }
            assert(matv(matrice@)[i as int] =~= m0[i as int].push(0i32));
        }
        i = i + 1;
    }
    let mut fresh: Vec<i32> = Vec::new();
    let mut j: usize = 0;
    while j < size + 1
        invariant
            0 <= j <= size + 1,
            size < usize::MAX,
            fresh@.len() == j,
            forall|q: int| 0 <= q < j ==> (#[trigger] fresh@[q]) == 0i32,
        decreases size + 1 - j,
    {
        fresh.push(0);
        j = j + 1;
    }
    proof {
        assert(fresh@ =~= zero_row(size as int + 1));
    }
    let ghost widened = matrice@;
    let ghost freshv = fresh@;
    matrice.push(fresh);
    let k = random_below(size);
    proof {
        assert forall|p: int| 0 <= p < size implies #[trigger] matv(matrice@)[p] == m0[p].push(
            0i32,
        ) by {
            assert(matrice@[p] == widened[p]);
            assert(matv(widened)[p] == m0[p].push(0i32));
        }
        assert(matv(matrice@)[size as int] == freshv);
        assert(matv(matrice@)[k as int].len() == size + 1);
    }
    let ghost pre2 = matrice@;
    let rowk = vec_row_mut(matrice, k);
    rowk.set(size, 1);
    proof {
        assert forall|p: int| 0 <= p < size + 1 && p != k implies #[trigger] matv(matrice@)[p]
            == matv(pre2)[p] by {
            assert(matrice@[p] == pre2[p]);
        }
        assert(matv(matrice@) =~= grow_model(m0, k as int)) by {
            assert(matv(matrice@)[k as int] =~= m0[k as int].push(1i32)) by {
                assert(matrice@[k as int]@ == pre2[k as int]@.update(size as int, 1i32));
            }
            assert(forall|p: int|
                0 <= p < size && p != k ==> (#[trigger] matv(matrice@)[p]) == m0[p].push(0i32));
            assert(matv(matrice@)[size as int] =~= zero_row(size as int + 1));
        }
    }
}

/// A mutable borrow of one row.
fn vec_row_mut(v: &mut Vec<Vec<i32>>, i: usize) -> (r: &mut Vec<i32>)
    requires
        i < old(v)@.len(),
    ensures
        *r == old(v)@[i as int],
        final(v)@ == old(v)@.update(i as int, *final(r)),
{
    &mut v[i]
}

/// Generates a random DAG of `size` nodes: starting from one node, each
/// added node receives exactly one incoming edge from a random earlier
/// node. The result is a well-formed acyclic adjacency matrix.
pub fn random_arity_matrix_generator(size: usize) -> (r: Vec<Vec<i32>>)
    requires
        1 <= size,
        size < usize::MAX,
    ensures
        r@.len() == size,
        forall|i: int| 0 <= i < size ==> (#[trigger] matv(r@)[i]).len() == size,
        dag_wf(matv(r@)),
        acyclic(matv(r@)),
{
    let mut matrice_res: Vec<Vec<i32>> = Vec::new();
    let mut seed: Vec<i32> = Vec::new();
    seed.push(0);
    matrice_res.push(seed);
    proof {
        assert(matv(matrice_res@).len() == 1);
        assert(matv(matrice_res@)[0] =~= seq![0i32]);
    }
    let mut count: usize = 1;
    while count < size
        invariant
            1 <= count <= size,
            size < usize::MAX,
            matrice_res@.len() == count,
            forall|i: int|
                0 <= i < count ==> (#[trigger] matv(matrice_res@)[i]).len() == count,
            forall|i: int, jj: int|
                0 <= i < count && 0 <= jj < count ==> ((#[trigger] matv(matrice_res@)[i][jj]) == 0
                    || matv(matrice_res@)[i][jj] == 1),
            edges_upward(matv(matrice_res@)),
        decreases size - count,
    {
        let ghost m0 = matv(matrice_res@);
        add_node(&mut matrice_res);
        proof {
            let k = choose|k: int|
                0 <= k < m0.len() && matv(matrice_res@) == grow_model(m0, k);
            let m2 = matv(matrice_res@);
            assert(m2.len() == count + 1);
            assert forall|i: int| 0 <= i < count + 1 implies (#[trigger] m2[i]).len() == count
                + 1 by {
                if i < count {
                    assert(m2[i] == m0[i].push(if i == k {
                        1i32
                    } else {
                        0i32
                    }));
                }
            }
            assert forall|i: int, jj: int|
                0 <= i < count + 1 && 0 <= jj < count + 1 implies ((#[trigger] m2[i][jj]) == 0
                || m2[i][jj] == 1) by {
                if i < count {
                    if jj < count {
                        assert(m2[i][jj] == m0[i][jj]);
                    }
                } else {
                    assert(m2[i][jj] == 0);
                }
            }
            assert forall|u: int, v: int|
                0 <= u < count + 1 && 0 <= v < count + 1 && #[trigger] m2[u][v] == 1 implies u
                < v by {
                if u < count {
                    if v < count {
                        assert(m2[u][v] == m0[u][v]);
                    }
                } else {
                    assert(m2[u][v] == 0);
                }
            }
        }
        count = count + 1;
    }
    proof {
        let m = matv(matrice_res@);
        assert(dag_wf(m)) by {
            assert(forall|c: int| 0 <= c < size ==> (#[trigger] m[c][c]) != 1);
            assert(forall|c: int|
                0 <= c < size ==> ((#[trigger] m[c][c]) == 0 || m[c][c] == 1));
        }
        let rank = Seq::new(size as nat, |i: int| i);
        assert(acyclic(m)) by {
            assert(rank.len() == m.len() && forall|u: int, v: int|
                0 <= u < m.len() && 0 <= v < m.len() && #[trigger] m[u][v] == 1 ==> rank[u]
                    < rank[v]);
        }
    }
    matrice_res
}

} // verus!
