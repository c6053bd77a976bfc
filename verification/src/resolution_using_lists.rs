//! The dense matrix backend of the resolution engine: the DAG is an
//! adjacency matrix, scanned for the first node whose degree pattern fires a
//! rewrite, restarting from node 0 after every rewrite until the matrix is
//! fully isolated or a complete scan fires nothing.

use crate::integral::Bound;
use crate::integral::IntegralSpec;
use crate::maths::u64_to_string;
use crate::resolution::Resolver;
use crate::resolution::acyclic;
use crate::resolution::bound_track;
use crate::resolution::bounds_track;
use crate::resolution::count_true;
use crate::resolution::fills_upto;
use crate::resolution::lemma_col_one_unique;
use crate::resolution::lemma_col_zero_pointwise;
use crate::resolution::lemma_count_true_le;
use crate::resolution::lemma_count_true_update;
use crate::resolution::lemma_count_true_zero;
use crate::resolution::lemma_fills_facts;
use crate::resolution::lemma_row_zero_pointwise;
use crate::resolution::lemma_var_in_push;
use crate::resolution::lemma_bound_resolves_later;
use crate::resolution::lemma_emit_step;
use crate::resolution::lemma_emit_step2;
use crate::resolution::node_isolated;
use crate::resolution::var_in_upto;
use crate::resolution::all_zero;
use crate::resolution::bit_reaches;
use crate::resolution::bit_step;
use crate::resolution::cell_set;
use crate::resolution::clear_row_spec;
use crate::resolution::count_all;
use crate::resolution::dag_wf;
use crate::resolution::fireable;
use crate::resolution::in_deg;
use crate::resolution::lemma_count_all_delta;
use crate::resolution::lemma_count_all_le;
use crate::resolution::lemma_count_all_nonneg;
use crate::resolution::lemma_kahn_spec_sub;
use crate::resolution::lemma_keep_first_sub;
use crate::resolution::lemma_reaches_step;
use crate::resolution::lemma_row_count_cell;
use crate::resolution::lemma_row_count_congr;
use crate::resolution::lemma_row_count_zero;
use crate::resolution::lemma_tr_subset;
use crate::resolution::out_deg;
use crate::resolution::resolve_post;
use crate::resolution::row_count;
use crate::resolution::stalled;
use crate::resolution::var_name_text;
use crate::resolution::zero_row;
use crate::transitive_reduction::apply_transitive_reduction;
use crate::transitive_reduction::col_count;
use crate::transitive_reduction::create_ordre_topologique;
use crate::transitive_reduction::kahn_spec;
use crate::transitive_reduction::keep_first;
use crate::transitive_reduction::matrix_wf;
use crate::transitive_reduction::matv;
use crate::transitive_reduction::tr_pipeline;
use crate::transitive_reduction::transitive_reduction_topologique;
use vstd::prelude::*;

verus! {

/// The in-edges of `t` from sources below `upto`, skipping `t`'s own row.
pub open spec fn col_skip(m: Seq<Seq<i32>>, t: int, upto: int) -> int
    decreases upto,
{
    if upto <= 0 {
        0
    } else {
        col_skip(m, t, upto - 1) + if upto - 1 != t && m[upto - 1][t] == 1 {
            1int
        } else {
            0int
        }
    }
}

proof fn lemma_col_skip_eq(m: Seq<Seq<i32>>, t: int, upto: int)
    requires
        m[t][t] != 1,
    ensures
        col_skip(m, t, upto) == col_count(m, t, upto),
    decreases upto,
{
    if upto > 0 {
        lemma_col_skip_eq(m, t, upto - 1);
    }
}

/// No entry of the matrix is 1.
pub open spec fn no_ones(m: Seq<Seq<i32>>) -> bool {
    forall|i: int, j: int| 0 <= i < m.len() && 0 <= j < m[i].len() ==> (#[trigger] m[i][j]) != 1
}

/// A mutable borrow of one row of the matrix.
fn row_mut(v: &mut Vec<Vec<i32>>, i: usize) -> (r: &mut Vec<i32>)
    requires
        i < old(v)@.len(),
    ensures
        *r == old(v)@[i as int],
        final(v)@ == old(v)@.update(i as int, *final(r)),
{
    &mut v[i]
}

/// An element-wise copy of a matrix.
pub fn clone_matrix(matrice: &Vec<Vec<i32>>) -> (r: Vec<Vec<i32>>)
    ensures
        matv(r@) == matv(matrice@),
        r@.len() == matrice@.len(),
{
    let n = matrice.len();
    let mut r: Vec<Vec<i32>> = Vec::new();
    let mut i: usize = 0;
    while i < n
        invariant
            n == matrice@.len(),
            0 <= i <= n,
            r@.len() == i,
            forall|p: int| 0 <= p < i ==> (#[trigger] r@[p])@ == matrice@[p]@,
        decreases n - i,
    {
        let row = matrice[i].clone();
        proof {
            assert(row@ =~= matrice@[i as int]@);
        }
        r.push(row);
        i = i + 1;
    }
    proof {
        assert(matv(r@) =~= matv(matrice@));
    }
    r
}

/// Verifies whether other vertices have an edge toward `line_to_verify`:
/// returns how many rows other than its own hold a 1 in that column, and
/// the last such row.
pub fn verify_no_entry(matrice: Vec<Vec<i32>>, line_to_verify: usize) -> (r: (i32, usize))
    requires
        matrice@.len() <= i32::MAX,
        forall|i: int|
            0 <= i < matrice@.len() ==> (line_to_verify as int) < (#[trigger] matv(
                matrice@,
            )[i]).len(),
    ensures
        r.0 as int == col_skip(matv(matrice@), line_to_verify as int, matrice@.len() as int),
        r.0 as int >= 1 ==> (r.1 < matrice@.len() && r.1 != line_to_verify && matv(
            matrice@,
        )[r.1 as int][line_to_verify as int] == 1),
{
    let ghost m = matv(matrice@);
    let n = matrice.len();
    let mut res: i32 = 0;
    let mut res_ligne_entrante: usize = 0;
    let mut i: usize = 0;
    while i < n
        invariant
            n == matrice@.len(),
            m == matv(matrice@),
            n <= i32::MAX,
            forall|p: int|
                0 <= p < n ==> (line_to_verify as int) < (#[trigger] m[p]).len(),
            0 <= i <= n,
            res as int == col_skip(m, line_to_verify as int, i as int),
            res as int <= i,
            res >= 1 ==> (res_ligne_entrante < n && res_ligne_entrante != line_to_verify
                && m[res_ligne_entrante as int][line_to_verify as int] == 1),
        decreases n - i,
    {
        proof {
            assert(m[i as int] == matrice@[i as int]@);
        }
        if i != line_to_verify {
            if matrice[i][line_to_verify] == 1 {
                res = res + 1;
                res_ligne_entrante = i;
            }
        }
        i = i + 1;
    }
    (res, res_ligne_entrante)
}

/// Clears every edge entering `line_to_delete`.
pub fn delete_edge(matrice: &mut Vec<Vec<i32>>, line_to_delete: usize)
    requires
        forall|i: int|
            0 <= i < old(matrice)@.len() ==> (line_to_delete as int) < (#[trigger] matv(
                old(matrice)@,
            )[i]).len(),
    ensures
        matv(final(matrice)@) == Seq::new(
            old(matrice)@.len(),
            |i: int| matv(old(matrice)@)[i].update(line_to_delete as int, 0),
        ),
{
    let ghost m0 = matv(matrice@);
    let n = matrice.len();
    let mut i: usize = 0;
    while i < n
        invariant
            n == matrice@.len(),
            m0.len() == n,
            forall|p: int| 0 <= p < n ==> (line_to_delete as int) < (#[trigger] m0[p]).len(),
            0 <= i <= n,
            forall|p: int|
                i <= p < n ==> (#[trigger] matv(matrice@)[p]) == m0[p],
            forall|p: int|
                0 <= p < i ==> (#[trigger] matv(matrice@)[p]) == m0[p].update(
                    line_to_delete as int,
                    0,
                ),
        decreases n - i,
    {
        proof {
            assert(matv(matrice@)[i as int] == matrice@[i as int]@);
        }
        let ghost pre = matrice@;
        let row = row_mut(matrice, i);
        row.set(line_to_delete, 0);
        proof {
            assert(matrice@[i as int]@ == pre[i as int]@.update(line_to_delete as int, 0));
            assert forall|p: int| 0 <= p < n && p != i implies #[trigger] matv(matrice@)[p] == matv(
                pre,
            )[p] by {
                assert(matrice@[p] == pre[p]);
            }
            assert(matv(matrice@)[i as int] =~= m0[i as int].update(line_to_delete as int, 0));
        }
        i = i + 1;
    }
    proof {
        assert(matv(matrice@) =~= Seq::new(
            m0.len(),
            |i: int| m0[i].update(line_to_delete as int, 0),
        ));
    }
}

/// Isolates `line_to_delete` on the outgoing side: zeroes its whole row.
pub fn delete_vortex(matrice: &mut Vec<Vec<i32>>, line_to_delete: usize)
    ensures
        (line_to_delete as int) < old(matrice)@.len() ==> matv(final(matrice)@) == clear_row_spec(
            matv(old(matrice)@),
            line_to_delete as int,
        ),
        (line_to_delete as int) >= old(matrice)@.len() ==> final(matrice)@ == old(matrice)@,
{
    if line_to_delete < matrice.len() {
        let len = matrice[line_to_delete].len();
        let mut row: Vec<i32> = Vec::new();
        let mut j: usize = 0;
        while j < len
            invariant
                0 <= j <= len,
                row@.len() == j,
                forall|q: int| 0 <= q < j ==> (#[trigger] row@[q]) == 0i32,
            decreases len - j,
        {
            row.push(0);
            j = j + 1;
        }
        proof {
            assert(row@ =~= zero_row(len as int));
        }
        matrice.set(line_to_delete, row);
        proof {
            assert(matv(matrice@) =~= clear_row_spec(matv(old(matrice)@), line_to_delete as int));
        }
    }
}

/// Whether every entry of the matrix is zero: all nodes are resolved.
pub fn verify_all_zero(matrice: Vec<Vec<i32>>) -> (r: bool)
    ensures
        r == no_ones(matv(matrice@)),
{
    let ghost m = matv(matrice@);
    let n = matrice.len();
    let mut i: usize = 0;
    while i < n
        invariant
            n == matrice@.len(),
            m == matv(matrice@),
            0 <= i <= n,
            forall|p: int, q: int|
                0 <= p < i && 0 <= q < m[p].len() ==> (#[trigger] m[p][q]) != 1,
        decreases n - i,
    {
        let row = &matrice[i];
        let len = row.len();
        let mut j: usize = 0;
        while j < len
            invariant
                n == matrice@.len(),
                m == matv(matrice@),
                i < n,
                len == row@.len(),
                row@ == m[i as int],
                0 <= j <= len,
                forall|q: int| 0 <= q < j ==> (#[trigger] m[i as int][q]) != 1,
            decreases len - j,
        {
            if row[j] == 1 {
                return false;
            }
            j = j + 1;
        }
        i = i + 1;
    }
    true
}

/// Overwrites one cell of the matrix.
fn set_cell(matrice: &mut Vec<Vec<i32>>, i: usize, j: usize, x: i32)
    requires
        (i as int) < old(matrice)@.len(),
        (j as int) < matv(old(matrice)@)[i as int].len(),
    ensures
        matv(final(matrice)@) == cell_set(matv(old(matrice)@), i as int, j as int, x),
        final(matrice)@.len() == old(matrice)@.len(),
{
    proof {
        assert(matv(matrice@)[i as int] == matrice@[i as int]@);
    }
    let row = row_mut(matrice, i);
    row.set(j, x);
    proof {
        assert(matv(matrice@) =~= cell_set(matv(old(matrice)@), i as int, j as int, x));
    }
}

/// Rewrites the DAG held by `matrice` until fully isolated or stalled.
/// Emission order: the first-emitted step is the innermost integral; the
/// nodes still isolated when the rewrites finish are emitted last, each
/// integrated from 0 to 1. Returns the specification and whether resolution
/// succeeded; on failure the specification is empty.
pub fn list_BIT_resolution(matrice: &mut Vec<Vec<i32>>) -> (r: (IntegralSpec, bool))
    requires
        dag_wf(matv(old(matrice)@)),
        acyclic(matv(old(matrice)@)),
        old(matrice)@.len() <= i32::MAX,
    ensures
        resolve_post(matv(old(matrice)@), matv(final(matrice)@), r.0, r.1),
        dag_wf(matv(final(matrice)@)),
        acyclic(matv(final(matrice)@)),
        final(matrice)@.len() == old(matrice)@.len(),
{
    let ghost m0 = matv(matrice@);
    let n = matrice.len();
    let mut entries: Vec<(usize, Bound, Bound)> = Vec::new();
    let mut emitted: Vec<bool> = Vec::new();
    let mut i0: usize = 0;
    while i0 < n
        invariant
            0 <= i0 <= n,
            emitted@.len() == i0,
            forall|p: int| 0 <= p < i0 ==> !(#[trigger] emitted@[p]),
        decreases n - i0,
    {
        emitted.push(false);
        i0 = i0 + 1;
    }
    proof {
        lemma_count_true_zero(emitted@, n as int);
    }
    let mut cpt: usize = 0;
    while cpt < n
        invariant
            n == matrice@.len(),
            n <= i32::MAX,
            matv(matrice@).len() == n,
            m0.len() == n,
            dag_wf(matv(matrice@)),
            acyclic(matv(matrice@)),
            0 <= cpt <= n,
            forall|c: int| 0 <= c < cpt ==> !fireable(matv(matrice@), c),
            emitted@.len() == n,
            entries@.len() == count_true(emitted@, n as int),
            entries@.len() <= n,
            forall|c: int|
                0 <= c < n ==> ((#[trigger] emitted@[c]) <==> var_in_upto(
                    entries@,
                    c,
                    entries@.len() as int,
                )),
            forall|p: int, q: int|
                0 <= p < q < entries@.len() ==> (#[trigger] entries@[p]).0 != (
                #[trigger] entries@[q]).0,
            forall|i: int| 0 <= i < entries@.len() ==> ((#[trigger] entries@[i]).0 as int) < n,
            forall|c: int|
                0 <= c < n && emitted@[c] ==> node_isolated(matv(matrice@), c),
            forall|i: int| 0 <= i < entries@.len() ==> bounds_track(entries@, i, n as int),
            bit_reaches(m0, matv(matrice@), entries@),
        decreases count_all(matv(matrice@), n as int), n - cpt,
    {
        let ghost mpre = matv(matrice@);
        proof {
            assert(forall|i: int| 0 <= i < n ==> (#[trigger] mpre[i]).len() == n);
            lemma_count_all_nonneg(mpre, n as int);
        }
        let vne = verify_no_entry(clone_matrix(matrice), cpt);
        let ind = vne.0;
        let p = vne.1;
        proof {
            lemma_col_skip_eq(mpre, cpt as int, n as int);
            assert(ind as int == in_deg(mpre, cpt as int));
        }
        let mut sortante: usize = 0;
        let mut index_sortante: usize = 0;
        let mut j: usize = 0;
        while j < n
            invariant
                n == matrice@.len(),
                mpre == matv(matrice@),
                mpre.len() == n,
                forall|i: int| 0 <= i < n ==> (#[trigger] mpre[i]).len() == n,
                cpt < n,
                0 <= j <= n,
                sortante as int == row_count(mpre, cpt as int, j as int),
                sortante <= j,
                sortante >= 1 ==> (index_sortante < j && mpre[cpt as int][index_sortante as int]
                    == 1),
            decreases n - j,
        {
            proof {
                assert(mpre[cpt as int] == matrice@[cpt as int]@);
            }
            if matrice[cpt][j] == 1 {
                sortante = sortante + 1;
                index_sortante = j;
            }
            j = j + 1;
        }
        proof {
            assert(sortante as int == out_deg(mpre, cpt as int));
        }
        let s = index_sortante;
        let ghost es0 = entries@;
        let ghost em0 = emitted@;

        if ind == 0 && sortante == 1 {
            // Top case: emit (c, 0, x_s) and isolate c.
            let e = (cpt, Bound::Zero, Bound::Var(s));
            delete_vortex(matrice, cpt);
            entries.push(e);
            emitted.set(cpt, true);
            proof {
                let c = cpt as int;
                let m2 = matv(matrice@);
                assert(m2 == clear_row_spec(mpre, c));
                assert(m2.len() == n);
                // Degrees and the step witness.
                assert(mpre[c][s as int] == 1);
                assert(bit_step(mpre, c, m2, e));
                // The emitted node was not emitted before (it has an edge).
                assert(!em0[c]) by {
                    if em0[c] {
                        assert(node_isolated(mpre, c));
                    }
                }
                // The bound's variable is alive: the edge into s shows it.
                assert(!em0[s as int]) by {
                    if em0[s as int] {
                        assert(node_isolated(mpre, s as int));
                    }
                }
                assert(s as int != c);
                lemma_emit_step(es0, em0, e, c, s as int, n as int);
                // Isolation is preserved and gained at c.
                assert(m2[c] == zero_row(n as int));
                lemma_col_zero_pointwise(mpre, c, n as int);
                assert forall|d: int| 0 <= d < n && emitted@[d] implies node_isolated(m2, d) by {
                    assert(forall|i: int| 0 <= i < n && i != c ==> m2[i] == mpre[i]);
                    assert(forall|jj: int| 0 <= jj < n ==> m2[c][jj] == 0);
                    if d != c {
                        assert(node_isolated(mpre, d));
                    }
                }
                // Well-formedness, acyclicity.
                assert(dag_wf(m2));
                let rank = choose|rank: Seq<int>|
                    rank.len() == mpre.len() && forall|u: int, v: int|
                        0 <= u < mpre.len() && 0 <= v < mpre.len() && #[trigger] mpre[u][v] == 1
                            ==> rank[u] < rank[v];
                assert(rank.len() == m2.len() && forall|u: int, v: int|
                    0 <= u < m2.len() && 0 <= v < m2.len() && #[trigger] m2[u][v] == 1 ==> rank[u]
                        < rank[v]);
                assert(acyclic(m2));
                // One edge disappears: the termination measure drops.
                lemma_count_all_delta(mpre, m2, c, n as int);
                lemma_row_count_zero(m2, c, n as int);
                assert(count_all(m2, n as int) == count_all(mpre, n as int) - 1);
                // The rewrite joins the reachability chain.
                lemma_reaches_step(m0, mpre, m2, es0, c, e);
            }
            cpt = 0;
        } else if ind == 1 && sortante == 0 {
            // Bottom case: emit (c, x_p, 1) and delete the edge p -> c.
            let e = (cpt, Bound::Var(p), Bound::One);
            proof {
                assert(matv(matrice@)[p as int].len() == n);
            }
            set_cell(matrice, p, cpt, 0);
            entries.push(e);
            emitted.set(cpt, true);
            proof {
                let c = cpt as int;
                let m2 = matv(matrice@);
                assert(m2 == cell_set(mpre, p as int, c, 0));
                assert(m2.len() == n);
                assert(mpre[p as int][c] == 1);
                assert(bit_step(mpre, c, m2, e));
                assert(!em0[c]) by {
                    if em0[c] {
                        assert(node_isolated(mpre, c));
                    }
                }
                assert(!em0[p as int]) by {
                    if em0[p as int] {
                        assert(node_isolated(mpre, p as int));
                    }
                }
                assert(p as int != c);
                lemma_emit_step(es0, em0, e, c, p as int, n as int);
                // c is now isolated: its row was empty, its single in-edge
                // is gone.
                lemma_row_zero_pointwise(mpre, c, n as int);
                lemma_col_one_unique(mpre, c, p as int, n as int);
                assert(forall|i: int| 0 <= i < n && i != p ==> m2[i] == mpre[i]);
                assert(m2[p as int] == mpre[p as int].update(c, 0));
                assert forall|d: int| 0 <= d < n && emitted@[d] implies node_isolated(m2, d) by {
                    if d != c {
                        assert(node_isolated(mpre, d));
                        assert(forall|jj: int| 0 <= jj < n ==> m2[d][jj] == mpre[d][jj]);
                        assert(forall|i: int|
                            0 <= i < n ==> m2[i][d] == mpre[i][d]);
                    } else {
                        assert(forall|jj: int| 0 <= jj < n ==> m2[c][jj] == mpre[c][jj]);
                        assert(forall|i: int| 0 <= i < n && i != p ==> m2[i][c] == mpre[i][c]);
                        assert(m2[p as int][c] == 0);
                    }
                }
                assert(dag_wf(m2)) by {
                    assert(forall|i: int, jj: int|
                        0 <= i < n && 0 <= jj < n ==> (#[trigger] m2[i][jj]) == 0 || m2[i][jj]
                            == 1);
                }
                let rank = choose|rank: Seq<int>|
                    rank.len() == mpre.len() && forall|u: int, v: int|
                        0 <= u < mpre.len() && 0 <= v < mpre.len() && #[trigger] mpre[u][v] == 1
                            ==> rank[u] < rank[v];
                assert(rank.len() == m2.len() && forall|u: int, v: int|
                    0 <= u < m2.len() && 0 <= v < m2.len() && #[trigger] m2[u][v] == 1 ==> rank[u]
                        < rank[v]);
                assert(acyclic(m2));
                lemma_count_all_delta(mpre, m2, p as int, n as int);
                lemma_row_count_cell(mpre, p as int, c, 0, n as int);
                assert(count_all(m2, n as int) == count_all(mpre, n as int) - 1);
                lemma_reaches_step(m0, mpre, m2, es0, c, e);
            }
            cpt = 0;
        } else if ind == 1 && sortante == 1 {
            // Interior case: emit (c, x_p, x_s), rewire p -> s around c,
            // isolate c, and repair by transitive reduction.
            let e = (cpt, Bound::Var(p), Bound::Var(s));
            proof {
                assert(matv(matrice@)[p as int].len() == n);
            }
            set_cell(matrice, p, s, 1);
            proof {
                assert(matv(matrice@)[p as int].len() == n);
            }
            set_cell(matrice, p, cpt, 0);
            delete_vortex(matrice, cpt);
            let ghost c3 = matv(matrice@);
            proof {
                let c = cpt as int;
                assert(c3 == clear_row_spec(
                    cell_set(cell_set(mpre, p as int, s as int, 1), p as int, c, 0),
                    c,
                ));
                assert(c3.len() == n);
                assert(matrix_wf(c3)) by {
                    assert(forall|i: int|
                        0 <= i < n && i != p && i != c ==> c3[i] == mpre[i]);
                    assert(c3[c] == zero_row(n as int));
                    assert(forall|jj: int|
                        0 <= jj < n ==> c3[p as int][jj] == mpre[p as int].update(
                            s as int,
                            1,
                        ).update(c, 0)[jj]);
                }
            }
            let ordre = create_ordre_topologique(clone_matrix(matrice));
            let reduced = transitive_reduction_topologique(&ordre);
            proof {
                lemma_kahn_spec_sub(c3);
                lemma_keep_first_sub(kahn_spec(c3), kahn_spec(c3).len() as int);
                assert forall|k: int|
                    0 <= k < reduced@.len() implies (#[trigger] reduced@[k]).0 < n && reduced@[k].1
                    < n by {
                    let i2 = choose|i2: int|
                        0 <= i2 < kahn_spec(c3).len() && (#[trigger] reduced@[k]) == kahn_spec(
                            c3,
                        )[i2];
                }
            }
            let len0 = matrice[0].len();
            proof {
                assert(matv(matrice@)[0].len() == n);
            }
            let nm = apply_transitive_reduction(len0, reduced);
            *matrice = nm;
            entries.push(e);
            emitted.set(cpt, true);
            proof {
                let c = cpt as int;
                let m2 = matv(matrice@);
                assert(m2 == tr_pipeline(c3)) by {
                    assert(m2 == crate::transitive_reduction::build_matrix_spec(
                        n as nat,
                        keep_first(kahn_spec(c3)),
                    ));
                }
                lemma_tr_subset(c3);
                assert(m2.len() == n);
                assert(mpre[p as int][c] == 1);
                assert(mpre[c][s as int] == 1);
                assert(bit_step(mpre, c, m2, e));
                assert(!em0[c]) by {
                    if em0[c] {
                        assert(node_isolated(mpre, c));
                    }
                }
                assert(!em0[p as int]) by {
                    if em0[p as int] {
                        assert(node_isolated(mpre, p as int));
                    }
                }
                assert(!em0[s as int]) by {
                    if em0[s as int] {
                        assert(node_isolated(mpre, s as int));
                    }
                }
                assert(p as int != c);
                assert(s as int != c);
                lemma_emit_step2(es0, em0, e, c, p as int, s as int, n as int);
                // c is isolated in the bypassed matrix, hence in the
                // reduced one.
                lemma_col_one_unique(mpre, c, p as int, n as int);
                let rank = choose|rank: Seq<int>|
                    rank.len() == mpre.len() && forall|u: int, v: int|
                        0 <= u < mpre.len() && 0 <= v < mpre.len() && #[trigger] mpre[u][v] == 1
                            ==> rank[u] < rank[v];
                assert(rank[p as int] < rank[c] && rank[c] < rank[s as int]);
                assert(p != s);
                assert(forall|i: int|
                    0 <= i < n && i != p && i != c ==> c3[i] == mpre[i]);
                assert(c3[c] == zero_row(n as int));
                assert(forall|jj: int|
                    0 <= jj < n ==> c3[p as int][jj] == mpre[p as int].update(
                        s as int,
                        1,
                    ).update(c, 0)[jj]);
                assert forall|d: int| 0 <= d < n && emitted@[d] implies node_isolated(m2, d) by {
                    if d == c {
                        assert(forall|jj: int| 0 <= jj < n ==> c3[c][jj] == 0);
                        assert(c3[p as int][c] == 0);
                        assert(forall|i: int|
                            0 <= i < n && i != p && i != c ==> c3[i][c] == mpre[i][c]);
                        assert(forall|i: int| 0 <= i < n ==> c3[i][c] != 1);
                        assert(forall|i: int| 0 <= i < n ==> m2[i][c] != 1);
                        assert(forall|jj: int| 0 <= jj < n ==> m2[c][jj] != 1);
                    } else {
                        assert(node_isolated(mpre, d));
                        assert(d != p && d != s);
                        assert(forall|jj: int| 0 <= jj < n ==> c3[d][jj] != 1);
                        assert(forall|i: int| 0 <= i < n ==> c3[i][d] != 1);
                        assert(forall|jj: int| 0 <= jj < n ==> m2[d][jj] != 1);
                        assert(forall|i: int| 0 <= i < n ==> m2[i][d] != 1);
                    }
                }
                // Well-formedness and acyclicity of the reduced matrix.
                assert(dag_wf(m2)) by {
                    assert forall|d: int| 0 <= d < n implies m2[d][d] == 0 by {
                        if m2[d][d] == 1 {
                            assert(c3[d][d] == 1);
                            if d != p && d != c {
                                assert(mpre[d][d] == 1);
                            }
                        }
                    }
                }
                assert(acyclic(m2)) by {
                    assert forall|u: int, v: int|
                        0 <= u < n && 0 <= v < n && #[trigger] m2[u][v] == 1 implies rank[u]
                        < rank[v] by {
                        assert(c3[u][v] == 1);
                        if u == p && v == s as int {
                        } else if u != p && u != c {
                            assert(mpre[u][v] == 1);
                        } else if u == p {
                            assert(mpre[p as int][v] == 1);
                        }
                    }
                    assert(rank.len() == m2.len());
                }
                // The measure drops: the bypass costs at most one new edge
                // and removes two, and the reduction only removes edges.
                let c1 = cell_set(mpre, p as int, s as int, 1);
                let c2 = cell_set(c1, p as int, c, 0);
                lemma_count_all_delta(mpre, c1, p as int, n as int);
                lemma_row_count_cell(mpre, p as int, s as int, 1, n as int);
                assert(c1[p as int].len() == n);
                lemma_count_all_delta(c1, c2, p as int, n as int);
                lemma_row_count_cell(c1, p as int, c, 0, n as int);
                assert(c1[p as int][c] == 1);
                lemma_count_all_delta(c2, c3, c, n as int);
                assert(c3[c] == zero_row(n as int));
                lemma_row_count_zero(c3, c, n as int);
                assert(c2[c] == mpre[c]);
                lemma_row_count_congr(c2, mpre, c, n as int);
                assert(count_all(c3, n as int) <= count_all(mpre, n as int) - 1);
                lemma_count_all_le(c3, m2, n as int);
                assert(count_all(m2, n as int) <= count_all(mpre, n as int) - 1);
                lemma_reaches_step(m0, mpre, m2, es0, c, e);
            }
            cpt = 0;
        } else {
            proof {
                assert(!fireable(matv(matrice@), cpt as int));
            }
            cpt = cpt + 1;
        }
        proof {
            lemma_count_all_nonneg(matv(matrice@), n as int);
        }
    }

    // Every node's degrees fire nothing: the scan has stalled.
    let ghost mfin = matv(matrice@);
    let all = verify_all_zero(clone_matrix(matrice));
    proof {
        assert(all == all_zero(mfin)) by {
            if no_ones(mfin) {
                assert(forall|i: int, jj: int|
                    0 <= i < n && 0 <= jj < n ==> (#[trigger] mfin[i][jj]) != 1);
            }
            if all_zero(mfin) {
                assert(forall|i: int, jj: int|
                    0 <= i < n && 0 <= jj < n ==> (#[trigger] mfin[i][jj]) == 0);
                assert(forall|i: int| 0 <= i < n ==> (#[trigger] mfin[i]).len() == n);
            }
        }
    }
    if !all {
        proof {
            assert(stalled(mfin));
            assert(exists|es: Seq<(usize, Bound, Bound)>| bit_reaches(m0, mfin, es)) by {
                assert(bit_reaches(m0, mfin, entries@));
            }
        }
        return (IntegralSpec::new(), false);
    }

    // Success: one step per node. The nodes never emitted by a rewrite were
    // already isolated; each is integrated from 0 to 1, ascending.
    let ghost es_done = entries@;
    let spec = crate::resolution::assemble_spec(entries, &emitted);
    proof {
        let es = spec.elements@;
        let n_ = n as int;
        assert(exists|k: int|
            0 <= k <= n_ && #[trigger] bit_reaches(m0, mfin, es.subrange(0, k)) && (forall|i: int|
                k <= i < n_ ==> (#[trigger] es[i]).1 == Bound::Zero && es[i].2 == Bound::One)) by {
            assert(es.subrange(0, es_done.len() as int) == es_done);
            assert(0 <= es_done.len() <= n_ && bit_reaches(
                m0,
                mfin,
                es.subrange(0, es_done.len() as int),
            ) && (forall|i: int|
                es_done.len() <= i < n_ ==> (#[trigger] es[i]).1 == Bound::Zero && es[i].2
                    == Bound::One));
        }
    }
    (spec, true)
}

/// Checks the external matrix input: it must be square with entries in
/// {0, 1} and an empty diagonal. Anything else is rejected before
/// resolution begins.
pub fn validate_matrix(matrice: &Vec<Vec<i32>>) -> (r: Result<(), crate::integrator::EngineError>)
    ensures
        r is Ok <==> dag_wf(matv(matrice@)),
        r is Err ==> r->Err_0 is MalformedDag,
{
    let n = matrice.len();
    let mut i: usize = 0;
    while i < n
        invariant
            n == matrice@.len(),
            0 <= i <= n,
            forall|p: int| 0 <= p < i ==> (#[trigger] matv(matrice@)[p]).len() == n,
            forall|p: int, q: int|
                0 <= p < i && 0 <= q < n ==> ((#[trigger] matv(matrice@)[p][q]) == 0 || matv(
                    matrice@,
                )[p][q] == 1),
            forall|p: int| 0 <= p < i ==> (#[trigger] matv(matrice@)[p][p]) == 0,
        decreases n - i,
    {
        proof {
            assert(matv(matrice@)[i as int] == matrice@[i as int]@);
        }
        let row = &matrice[i];
        if row.len() != n {
            return Err(crate::integrator::EngineError::MalformedDag);
        }
        let mut j: usize = 0;
        while j < n
            invariant
                n == matrice@.len(),
                i < n,
                row@ == matv(matrice@)[i as int],
                row@.len() == n,
                0 <= j <= n,
                forall|q: int|
                    0 <= q < j ==> ((#[trigger] row@[q]) == 0 || row@[q] == 1),
                forall|q: int| 0 <= q < j && q == i ==> row@[q] == 0,
            decreases n - j,
        {
            let v = row[j];
            if v != 0 && v != 1 {
                return Err(crate::integrator::EngineError::MalformedDag);
            }
            if j == i && v != 0 {
                return Err(crate::integrator::EngineError::MalformedDag);
            }
            j = j + 1;
        }
        i = i + 1;
    }
    Ok(())
}

/// Resolves a validated matrix: rejects malformed input, rewrites the DAG,
/// and reports a stalled resolution as the unresolvable-DAG error with no
/// partial specification.
pub fn resolve_matrix(matrice: &mut Vec<Vec<i32>>) -> (r: Result<
    IntegralSpec,
    crate::integrator::EngineError,
>)
    requires
        acyclic(matv(old(matrice)@)),
        old(matrice)@.len() <= i32::MAX,
    ensures
        !dag_wf(matv(old(matrice)@)) ==> (r is Err && r->Err_0 is MalformedDag),
        dag_wf(matv(old(matrice)@)) ==> match r {
            Result::Ok(sp) => resolve_post(matv(old(matrice)@), matv(final(matrice)@), sp, true),
            Result::Err(e) => {
                &&& e is UnresolvableDag
                &&& matv(final(matrice)@).len() == matv(old(matrice)@).len()
                &&& stalled(matv(final(matrice)@))
                &&& !all_zero(matv(final(matrice)@))
            },
        },
{
    match validate_matrix(matrice) {
        Ok(()) => {},
        Err(e) => {
            return Err(e);
        },
    }
    let (sp, ok) = list_BIT_resolution(matrice);
    if ok {
        Ok(sp)
    } else {
        Err(crate::integrator::EngineError::UnresolvableDag)
    }
}

/// The matrix backend packaged behind the shared `Resolver` capability.
pub struct MatrixDag {
    pub matrice: Vec<Vec<i32>>,
}

impl Resolver for MatrixDag {
    open spec fn dag(&self) -> Seq<Seq<i32>> {
        matv(self.matrice@)
    }

    open spec fn wf(&self) -> bool {
        &&& dag_wf(matv(self.matrice@))
        &&& acyclic(matv(self.matrice@))
        &&& self.matrice@.len() <= i32::MAX
    }

    proof fn wf_implies_dag_wf(&self) {
    }

    fn resolve(&mut self) -> (r: (IntegralSpec, bool)) {
        list_BIT_resolution(&mut self.matrice)
    }
}

} // verus!
