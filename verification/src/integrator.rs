//! The exact multivariate polynomial integration engine. A polynomial is a
//! list of monomials (exponent vectors over a fixed, pre-declared set of
//! variables) with non-zero exact-rational coefficients; `integrate` performs
//! one "integrate variable `v` from bound to bound" step.
//!
//! The mathematical model of a polynomial is the sequence of its terms, each
//! a `Seq<u64>` of exponents paired with a ghost fraction; `sum_at` gives the
//! total coefficient a term list assigns to a monomial, and `contributions`
//! gives the terms that one integration step owes for every input term.

use crate::frac::Frac;
use crate::frac::lemma_add_congruence;
use crate::frac::lemma_add_zero;
use crate::frac::lemma_equiv_trans;
use crate::frac::lemma_neg_congruence;
use crate::integral::Bound;
use crate::rat::frac_of;
use crate::rat::rat_add;
use crate::rat::rat_clone;
use crate::rat::rat_den;
use crate::rat::rat_div_u64;
use crate::rat::rat_eq;
use crate::rat::rat_from_i64;
use crate::rat::rat_is_zero;
use crate::rat::rat_neg;
use crate::rat::rat_is_positive;
use crate::rat::rat_num;
use crate::rat::rat_to_string;
use num_rational::BigRational;
use vstd::prelude::*;

verus! {

/// The all-zero exponent vector: the constant monomial 1.
pub open spec fn zero_mono(n: nat) -> Seq<u64> {
    Seq::new(n, |i: int| 0u64)
}

/// Sum of all exponents of a monomial.
pub open spec fn total_deg(m: Seq<u64>) -> int
    decreases m.len(),
{
    if m.len() == 0 {
        0
    } else {
        total_deg(m.drop_last()) + m.last()
    }
}

/// The antiderivative monomial: exponent at `v` incremented by one.
pub open spec fn spec_antideriv(m: Seq<u64>, v: int) -> Seq<u64> {
    m.update(v, (m[v] + 1) as u64)
}

/// Substituting the constant 1 for variable `v`: its exponent is zeroed.
pub open spec fn spec_subst_const(m: Seq<u64>, v: int) -> Seq<u64> {
    m.update(v, 0u64)
}

/// Substituting variable `w` for variable `v`: `v`'s exponent moves onto
/// `w`'s, then `v`'s is zeroed.
pub open spec fn spec_subst_var(m: Seq<u64>, v: int, w: int) -> Seq<u64> {
    m.update(w, (m[w] + m[v]) as u64).update(v, 0u64)
}

/// The monomial an antiderivative monomial evaluates to at a bound, or
/// `None` when the bound is zero (which contributes nothing).
pub open spec fn eval_at_bound(am: Seq<u64>, v: int, b: Bound) -> Option<Seq<u64>> {
    match b {
        Bound::Zero => None,
        Bound::One => Some(spec_subst_const(am, v)),
        Bound::Var(w) => Some(spec_subst_var(am, v, w as int)),
    }
}

/// The terms one input term owes after integrating variable `v` from `from`
/// to `to`: the antiderivative evaluated at the upper bound with coefficient
/// `+c/(e+1)`, and at the lower bound with `-c/(e+1)`.
pub open spec fn term_contrib(t: (Seq<u64>, Frac), v: int, from: Bound, to: Bound) -> Seq<
    (Seq<u64>, Frac),
> {
    let am = spec_antideriv(t.0, v);
    let ac = t.1.div_int(t.0[v] + 1);
    let upper = match eval_at_bound(am, v, to) {
        Option::None => Seq::<(Seq<u64>, Frac)>::empty(),
        Option::Some(m2) => seq![(m2, ac)],
    };
    let lower = match eval_at_bound(am, v, from) {
        Option::None => Seq::<(Seq<u64>, Frac)>::empty(),
        Option::Some(m2) => seq![(m2, ac.neg())],
    };
    upper + lower
}

/// All terms a term list owes for one integration step.
pub open spec fn contributions(ts: Seq<(Seq<u64>, Frac)>, v: int, from: Bound, to: Bound) -> Seq<
    (Seq<u64>, Frac),
>
    decreases ts.len(),
{
    if ts.len() == 0 {
        Seq::<(Seq<u64>, Frac)>::empty()
    } else {
        contributions(ts.drop_last(), v, from, to) + term_contrib(ts.last(), v, from, to)
    }
}

/// The total coefficient a term list assigns to the monomial `m`.
pub open spec fn sum_at(ts: Seq<(Seq<u64>, Frac)>, m: Seq<u64>) -> Frac
    decreases ts.len(),
{
    if ts.len() == 0 {
        Frac::zero()
    } else if ts.last().0 == m {
        sum_at(ts.drop_last(), m).add(ts.last().1)
    } else {
        sum_at(ts.drop_last(), m)
    }
}

/// All coefficients of a term list are well-formed fractions.
pub open spec fn coefs_wf(ts: Seq<(Seq<u64>, Frac)>) -> bool {
    forall|i: int| 0 <= i < ts.len() ==> (#[trigger] ts[i]).1.wf()
}

/// The ghost terms of an executable monomial/coefficient list.
pub open spec fn terms_of(v: Seq<(Vec<u64>, BigRational)>) -> Seq<(Seq<u64>, Frac)> {
    v.map_values(|t: (Vec<u64>, BigRational)| (t.0@, frac_of(t.1)))
}

/// A sparse exact-rational multivariate polynomial in canonical form.
#[derive(Debug)]
pub struct Poly {
    pub nbvars: usize,
    pub monos: Vec<(Vec<u64>, BigRational)>,
}

impl Poly {
    /// The ghost terms of this polynomial.
    pub open spec fn terms(self) -> Seq<(Seq<u64>, Frac)> {
        terms_of(self.monos@)
    }

    /// Canonical form: every monomial has one exponent per declared
    /// variable, coefficients are well-formed and non-zero, and no monomial
    /// occurs twice.
    pub open spec fn wf(self) -> bool {
        &&& forall|i: int|
            0 <= i < self.terms().len() ==> (#[trigger] self.terms()[i]).0.len() == self.nbvars
        &&& forall|i: int| 0 <= i < self.terms().len() ==> (#[trigger] self.terms()[i]).1.wf()
        &&& forall|i: int| 0 <= i < self.terms().len() ==> (#[trigger] self.terms()[i]).1.n != 0
        &&& forall|i: int, j: int|
            0 <= i < j < self.terms().len() ==> (#[trigger] self.terms()[i]).0 != (
            #[trigger] self.terms()[j]).0
    }

    /// Every monomial's total degree is at most `cap`.
    pub open spec fn deg_within(self, cap: int) -> bool {
        forall|i: int| 0 <= i < self.terms().len() ==> total_deg((#[trigger] self.terms()[i]).0) <= cap
    }

    /// Exactly one term, the constant monomial.
    pub open spec fn is_constant_spec(self) -> bool {
        self.terms().len() == 1 && self.terms()[0].0 == zero_mono(self.terms()[0].0.len())
    }

    /// The multiplicative identity over `nbvars` variables: the single
    /// all-zero monomial with coefficient 1.
    pub fn new(nbvars: usize) -> (r: Poly)
        ensures
            r.nbvars == nbvars,
            r.terms().len() == 1,
            r.terms()[0].0 == zero_mono(nbvars as nat),
            r.terms()[0].1 == Frac::one(),
            r.wf(),
            r.deg_within(0),
    {
        let mut monos: Vec<(Vec<u64>, BigRational)> = Vec::new();
        monos.push((mk_one_mono(nbvars), rat_from_i64(1)));
        let r = Poly { nbvars, monos };
        proof {
            assert(r.terms() =~= seq![(zero_mono(nbvars as nat), Frac::one())]);
            lemma_zero_mono_deg(nbvars as nat);
        }
        r
    }

    pub fn number_of_monos(&self) -> (r: usize)
        ensures
            r == self.terms().len(),
    {
        self.monos.len()
    }

    /// How many distinct coefficient values occur among the terms.
    pub fn number_of_distinct_coefs(&self) -> (r: usize)
        requires
            self.wf(),
        ensures
            r == distinct_coef_count(self.terms(), self.terms().len() as int),
    {
        let n = self.monos.len();
        let mut count: usize = 0;
        let mut i: usize = 0;
        while i < n
            invariant
                n == self.monos@.len(),
                0 <= i <= n,
                self.wf(),
                count == distinct_coef_count(self.terms(), i as int),
                count <= i,
            decreases n - i,
        {
            let seen = self.coef_seen_before(i);
            proof {
                assert(distinct_coef_count(self.terms(), i + 1) == distinct_coef_count(
                    self.terms(),
                    i as int,
                ) + if exists|k: int|
                    0 <= k < i && (#[trigger] self.terms()[k]).1.equiv(self.terms()[i as int].1) {
                    0int
                } else {
                    1int
                });
            }
            if !seen {
                count = count + 1;
            }
            i = i + 1;
        }
        count
    }

    /// Whether some earlier term's coefficient equals term `i`'s in value.
    fn coef_seen_before(&self, i: usize) -> (r: bool)
        requires
            self.wf(),
            i < self.monos@.len(),
        ensures
            r == exists|k: int|
                0 <= k < i && (#[trigger] self.terms()[k]).1.equiv(self.terms()[i as int].1),
    {
        let mut j: usize = 0;
        while j < i
            invariant
                i < self.monos@.len(),
                0 <= j <= i,
                self.wf(),
                forall|k: int|
                    0 <= k < j ==> !(#[trigger] self.terms()[k]).1.equiv(self.terms()[i as int].1),
            decreases i - j,
        {
            proof {
                assert(self.terms()[j as int].1.wf());
                assert(self.terms()[i as int].1.wf());
            }
            if rat_eq(&self.monos[j].1, &self.monos[i].1) {
                proof {
                    assert((self.terms()[j as int]).1.equiv(self.terms()[i as int].1));
                }
                return true;
            }
            j = j + 1;
        }
        false
    }

    /// Whether the polynomial is a single constant monomial.
    pub fn is_constant(self) -> (r: bool)
        ensures
            r == self.is_constant_spec(),
    {
        if self.monos.len() != 1 {
            return false;
        }
        let m = &self.monos[0].0;
        let k = m.len();
        let mut idx: usize = 0;
        while idx < k
            invariant
                k == m@.len(),
                0 <= idx <= k,
                m@ == self.terms()[0].0,
                self.terms().len() == 1,
                forall|p: int| 0 <= p < idx ==> m@[p] == 0u64,
            decreases k - idx,
        {
            if m[idx] > 0 {
                proof {
                    assert(self.terms()[0].0[idx as int] != 0u64);
                    assert(self.terms()[0].0 != zero_mono(self.terms()[0].0.len()));
                }
                return false;
            }
            idx = idx + 1;
        }
        proof {
            assert(m@ =~= zero_mono(m@.len()));
        }
        true
    }

    /// The single coefficient if the polynomial is exactly one all-zero
    /// monomial; `None` otherwise (a "stuck" integral).
    pub fn as_constant(&self) -> (r: Option<BigRational>)
        ensures
            self.is_constant_spec() ==> (r is Some && frac_of(r.unwrap()) == self.terms()[0].1),
            !self.is_constant_spec() ==> r is None,
    {
        if self.monos.len() != 1 {
            return None;
        }
        let m = &self.monos[0].0;
        let k = m.len();
        let mut idx: usize = 0;
        while idx < k
            invariant
                k == m@.len(),
                0 <= idx <= k,
                m@ == self.terms()[0].0,
                self.terms().len() == 1,
                forall|p: int| 0 <= p < idx ==> m@[p] == 0u64,
            decreases k - idx,
        {
            if m[idx] > 0 {
                proof {
                    assert(self.terms()[0].0[idx as int] != 0u64);
                    assert(self.terms()[0].0 != zero_mono(self.terms()[0].0.len()));
                }
                return None;
            }
            idx = idx + 1;
        }
        proof {
            assert(m@ =~= zero_mono(m@.len()));
        }
        let c = rat_clone(&self.monos[0].1);
        proof {
            assert(frac_of(c) == self.terms()[0].1);
        }
        Some(c)
    }
}

/// The count of coefficients among the first `upto` terms that no earlier
/// term matches in value.
pub open spec fn distinct_coef_count(ts: Seq<(Seq<u64>, Frac)>, upto: int) -> int
    decreases upto,
{
    if upto <= 0 {
        0
    } else {
        distinct_coef_count(ts, upto - 1) + if exists|k: int|
            0 <= k < upto - 1 && (#[trigger] ts[k]).1.equiv(ts[upto - 1].1) {
            0int
        } else {
            1int
        }
    }
}

proof fn lemma_zero_mono_deg(n: nat)
    ensures
        total_deg(zero_mono(n)) == 0,
    decreases n,
{
    if n == 0 {
        assert(zero_mono(0).len() == 0);
    } else {
        lemma_zero_mono_deg((n - 1) as nat);
        assert(zero_mono(n).drop_last() =~= zero_mono((n - 1) as nat));
        assert(zero_mono(n).last() == 0u64);
    }
}

/// The all-zero exponent vector over `nbvars` variables.
pub fn mk_one_mono(nbvars: usize) -> (r: Vec<u64>)
    ensures
        r@ == zero_mono(nbvars as nat),
{
    let mut r: Vec<u64> = Vec::new();
    let mut i: usize = 0;
    while i < nbvars
        invariant
            0 <= i <= nbvars,
            r@.len() == i,
            forall|p: int| 0 <= p < i ==> r@[p] == 0u64,
        decreases nbvars - i,
    {
        r.push(0);
        i = i + 1;
    }
    proof {
        assert(r@ =~= zero_mono(nbvars as nat));
    }
    r
}

/// The antiderivative monomial: a copy with the exponent at `var_num`
/// incremented by one.
pub fn antideriv_mono(mono: &Vec<u64>, var_num: usize) -> (r: Vec<u64>)
    requires
        var_num < mono@.len(),
        mono@[var_num as int] < u64::MAX,
    ensures
        r@ == spec_antideriv(mono@, var_num as int),
{
    let n = mono.len();
    let mut r: Vec<u64> = Vec::new();
    let mut i: usize = 0;
    while i < n
        invariant
            n == mono@.len(),
            var_num < n,
            mono@[var_num as int] < u64::MAX,
            0 <= i <= n,
            r@.len() == i,
            forall|p: int|
                0 <= p < i && p != var_num ==> r@[p] == mono@[p],
            var_num < i ==> r@[var_num as int] == mono@[var_num as int] + 1,
        decreases n - i,
    {
        if i == var_num {
            r.push(mono[i] + 1);
        } else {
            r.push(mono[i]);
        }
        i = i + 1;
    }
    proof {
        assert(r@ =~= spec_antideriv(mono@, var_num as int));
    }
    r
}

/// The antiderivative coefficient: the exact rational `coef / (1 + e)`,
/// where `e` is the exponent of `var_num` in `mono`.
pub fn antideriv_coef(coef: &BigRational, mono: &Vec<u64>, var_num: usize) -> (r: BigRational)
    requires
        var_num < mono@.len(),
        mono@[var_num as int] < u64::MAX,
        rat_den(*coef) > 0,
    ensures
        frac_of(r).wf(),
        frac_of(r).equiv(frac_of(*coef).div_int(mono@[var_num as int] + 1)),
{
    rat_div_u64(coef, mono[var_num] + 1)
}

/// In-place variant of `antideriv_mono`: increments the exponent at
/// `var_num` when the index is within range.
pub fn antideriv_mono_address(mono: &mut Vec<u64>, var_num: usize)
    requires
        var_num < old(mono)@.len() ==> old(mono)@[var_num as int] < u64::MAX,
    ensures
        var_num < old(mono)@.len() ==> final(mono)@ == spec_antideriv(old(mono)@, var_num as int),
        var_num >= old(mono)@.len() ==> final(mono)@ == old(mono)@,
{
    if var_num < mono.len() {
        let e = mono[var_num];
        mono.set(var_num, e + 1);
        proof {
            assert(mono@ =~= spec_antideriv(old(mono)@, var_num as int));
        }
    }
}

/// Substitutes variable `by_var` for `subst_var`: a copy with `subst_var`'s
/// exponent added onto `by_var`'s and then zeroed.
pub fn mono_subst_var(mono: &Vec<u64>, subst_var: usize, by_var: usize) -> (r: Vec<u64>)
    requires
        subst_var < mono@.len(),
        by_var < mono@.len(),
        mono@[by_var as int] + mono@[subst_var as int] <= u64::MAX,
    ensures
        r@ == spec_subst_var(mono@, subst_var as int, by_var as int),
{
    let mut nmono = clone_mono(mono);
    let bumped = nmono[by_var] + mono[subst_var];
    nmono.set(by_var, bumped);
    nmono.set(subst_var, 0);
    proof {
        assert(nmono@ =~= spec_subst_var(mono@, subst_var as int, by_var as int));
    }
    nmono
}

/// Substitutes the constant 1 for `subst_var`: a copy with its exponent
/// zeroed.
pub fn mono_subst_const(mono: &Vec<u64>, subst_var: usize) -> (r: Vec<u64>)
    requires
        subst_var < mono@.len(),
    ensures
        r@ == spec_subst_const(mono@, subst_var as int),
{
    let mut nmono = clone_mono(mono);
    nmono.set(subst_var, 0);
    proof {
        assert(nmono@ =~= spec_subst_const(mono@, subst_var as int));
    }
    nmono
}

/// A bound is admissible for integrating variable `var` over `nbvars`
/// declared variables: a referenced variable is in range and is not the one
/// being integrated.
pub open spec fn bound_ok(b: Bound, nbvars: int, var: int) -> bool {
    match b {
        Bound::Var(w) => w < nbvars && w != var,
        _ => true,
    }
}

proof fn lemma_total_deg_update(m: Seq<u64>, i: int, x: u64)
    requires
        0 <= i < m.len(),
    ensures
        total_deg(m.update(i, x)) == total_deg(m) - m[i] + x,
    decreases m.len(),
{
    if i == m.len() - 1 {
        assert(m.update(i, x).drop_last() =~= m.drop_last());
        assert(m.update(i, x).last() == x);
    } else {
        assert(m.update(i, x).drop_last() =~= m.drop_last().update(i, x));
        assert(m.update(i, x).last() == m.last());
        lemma_total_deg_update(m.drop_last(), i, x);
    }
}

proof fn lemma_total_deg_nonneg(m: Seq<u64>)
    ensures
        total_deg(m) >= 0,
    decreases m.len(),
{
    if m.len() > 0 {
        lemma_total_deg_nonneg(m.drop_last());
    }
}

proof fn lemma_entry_le_total(m: Seq<u64>, i: int)
    requires
        0 <= i < m.len(),
    ensures
        m[i] <= total_deg(m),
        total_deg(m) >= 0,
    decreases m.len(),
{
    lemma_total_deg_nonneg(m);
    if i == m.len() - 1 {
        lemma_total_deg_nonneg(m.drop_last());
    } else {
        lemma_entry_le_total(m.drop_last(), i);
        assert(m.drop_last()[i] == m[i]);
    }
}

proof fn lemma_two_entries_le_total(m: Seq<u64>, i: int, j: int)
    requires
        0 <= i < m.len(),
        0 <= j < m.len(),
        i != j,
    ensures
        m[i] + m[j] <= total_deg(m),
    decreases m.len(),
{
    if i == m.len() - 1 {
        lemma_entry_le_total(m.drop_last(), j);
        assert(m.drop_last()[j] == m[j]);
    } else if j == m.len() - 1 {
        lemma_entry_le_total(m.drop_last(), i);
        assert(m.drop_last()[i] == m[i]);
    } else {
        lemma_two_entries_le_total(m.drop_last(), i, j);
        assert(m.drop_last()[i] == m[i]);
        assert(m.drop_last()[j] == m[j]);
    }
}

proof fn lemma_sum_at_wf(ts: Seq<(Seq<u64>, Frac)>, m: Seq<u64>)
    requires
        coefs_wf(ts),
    ensures
        sum_at(ts, m).wf(),
    decreases ts.len(),
{
    if ts.len() == 0 {
    } else {
        assert(coefs_wf(ts.drop_last())) by {
            assert(forall|i: int|
                0 <= i < ts.drop_last().len() ==> ts.drop_last()[i] == ts[i] && (
                #[trigger] ts.drop_last()[i]).1.wf());
        }
        lemma_sum_at_wf(ts.drop_last(), m);
        if ts.last().0 == m {
            assert(ts[ts.len() - 1].1.wf());
            crate::frac::lemma_add_wf(sum_at(ts.drop_last(), m), ts.last().1);
        }
    }
}

/// Appending one term adds its coefficient to the sum at its monomial and
/// leaves every other monomial's sum unchanged.
proof fn lemma_sum_push(ts: Seq<(Seq<u64>, Frac)>, t: (Seq<u64>, Frac), m: Seq<u64>)
    ensures
        t.0 == m ==> sum_at(ts.push(t), m) == sum_at(ts, m).add(t.1),
        t.0 != m ==> sum_at(ts.push(t), m) == sum_at(ts, m),
{
    assert(ts.push(t).drop_last() =~= ts);
    assert(ts.push(t).last() == t);
}

/// Replacing the coefficient at position `j` by one whose value is the old
/// coefficient plus `delta` raises the sum at that monomial by `delta` and
/// leaves every other monomial's sum unchanged.
proof fn lemma_sum_merge(
    acc: Seq<(Seq<u64>, Frac)>,
    j: int,
    delta: Frac,
    c2: Frac,
    m: Seq<u64>,
)
    requires
        0 <= j < acc.len(),
        c2.equiv(acc[j].1.add(delta)),
    ensures
        acc[j].0 == m ==> sum_at(acc.update(j, (acc[j].0, c2)), m).equiv(
            sum_at(acc, m).add(delta),
        ),
        acc[j].0 != m ==> sum_at(acc.update(j, (acc[j].0, c2)), m) == sum_at(acc, m),
    decreases acc.len(),
{
    let acc2 = acc.update(j, (acc[j].0, c2));
    if j == acc.len() - 1 {
        assert(acc2.drop_last() =~= acc.drop_last());
        assert(acc2.last() == (acc[j].0, c2));
        if acc[j].0 == m {
            let s = sum_at(acc.drop_last(), m);
            crate::frac::lemma_add_congruence(s, s, c2, acc[j].1.add(delta));
            crate::frac::lemma_add_assoc(s, acc[j].1, delta);
            assert(sum_at(acc2, m) == s.add(c2));
            assert(s.add(c2).equiv(s.add(acc[j].1.add(delta))));
            assert(s.add(acc[j].1.add(delta)) == s.add(acc[j].1).add(delta));
        }
    } else {
        assert(acc2.drop_last() =~= acc.drop_last().update(j, (acc.drop_last()[j].0, c2)));
        assert(acc2.last() == acc.last());
        lemma_sum_merge(acc.drop_last(), j, delta, c2, m);
        if acc.last().0 == m {
            if acc[j].0 == m {
                let r1 = sum_at(acc.drop_last(), m);
                let r2 = sum_at(acc2.drop_last(), m);
                assert(r2.equiv(r1.add(delta)));
                crate::frac::lemma_add_congruence(r2, r1.add(delta), acc.last().1, acc.last().1);
                crate::frac::lemma_add_shuffle(r1, delta, acc.last().1);
                assert(sum_at(acc2, m) == r2.add(acc.last().1));
                assert(r2.add(acc.last().1).equiv(r1.add(delta).add(acc.last().1)));
                assert(r1.add(delta).add(acc.last().1) == r1.add(acc.last().1).add(delta));
            }
        }
    }
}

/// Pointwise transfer: if the accumulator's sums match the ghost term list
/// `b`'s sums, they still match after both are extended by one term.
proof fn lemma_transfer_push(
    a: Seq<(Seq<u64>, Frac)>,
    b: Seq<(Seq<u64>, Frac)>,
    a2: Seq<(Seq<u64>, Frac)>,
    t: (Seq<u64>, Frac),
)
    requires
        forall|m: Seq<u64>| #![all_triggers] sum_at(a2, m).equiv(sum_at(a.push(t), m)),
        forall|m: Seq<u64>| #![all_triggers] sum_at(a, m).equiv(sum_at(b, m)),
        coefs_wf(a),
        coefs_wf(b),
        t.1.wf(),
    ensures
        forall|m: Seq<u64>| #![all_triggers] sum_at(a2, m).equiv(sum_at(b.push(t), m)),
{
    assert forall|m: Seq<u64>| #![all_triggers] sum_at(a2, m).equiv(sum_at(b.push(t), m)) by {
        lemma_sum_push(a, t, m);
        lemma_sum_push(b, t, m);
        lemma_sum_at_wf(a, m);
        lemma_sum_at_wf(b, m);
        if t.0 == m {
            crate::frac::lemma_add_congruence(sum_at(a, m), sum_at(b, m), t.1, t.1);
            crate::frac::lemma_add_wf(sum_at(a, m), t.1);
            lemma_equiv_trans(sum_at(a2, m), sum_at(a, m).add(t.1), sum_at(b, m).add(t.1));
        } else {
            lemma_equiv_trans(sum_at(a2, m), sum_at(a, m), sum_at(b, m));
        }
    }
}

/// Unfolding `contributions` over an appended input term.
proof fn lemma_contributions_push(
    ts: Seq<(Seq<u64>, Frac)>,
    t: (Seq<u64>, Frac),
    v: int,
    from: Bound,
    to: Bound,
)
    ensures
        contributions(ts.push(t), v, from, to) == contributions(ts, v, from, to) + term_contrib(
            t,
            v,
            from,
            to,
        ),
{
    assert(ts.push(t).drop_last() =~= ts);
    assert(ts.push(t).last() == t);
}

/// The coefficients a step owes are well-formed whenever the input
/// coefficients are.
proof fn lemma_contrib_coefs_wf(ts: Seq<(Seq<u64>, Frac)>, v: int, from: Bound, to: Bound)
    requires
        coefs_wf(ts),
        forall|i: int| 0 <= i < ts.len() ==> 0 <= (#[trigger] ts[i]).0[v],
    ensures
        coefs_wf(contributions(ts, v, from, to)),
    decreases ts.len(),
{
    if ts.len() == 0 {
    } else {
        assert(coefs_wf(ts.drop_last())) by {
            assert(forall|i: int|
                0 <= i < ts.drop_last().len() ==> ts.drop_last()[i] == ts[i] && (
                #[trigger] ts.drop_last()[i]).1.wf());
        }
        assert(forall|i: int|
            0 <= i < ts.drop_last().len() ==> ts.drop_last()[i] == ts[i] && 0 <= (
            #[trigger] ts.drop_last()[i]).0[v]);
        lemma_contrib_coefs_wf(ts.drop_last(), v, from, to);
        let t = ts.last();
        assert(t == ts[ts.len() - 1]);
        let ac = t.1.div_int(t.0[v] + 1);
        assert(ac.wf()) by {
            assert(t.1.d > 0);
            assert(t.0[v] + 1 > 0);
            assert(t.1.d * (t.0[v] + 1) > 0) by (nonlinear_arith)
                requires
                    t.1.d > 0,
                    t.0[v] + 1 > 0,
            ;
        }
        let c = contributions(ts, v, from, to);
        let cpre = contributions(ts.drop_last(), v, from, to);
        let tc = term_contrib(t, v, from, to);
        assert(c == cpre + tc);
        assert(coefs_wf(tc)) by {
            assert(forall|i: int| 0 <= i < tc.len() ==> (#[trigger] tc[i]).1 == ac || tc[i].1 == ac.neg());
        }
        assert(forall|i: int|
            0 <= i < c.len() ==> (#[trigger] c[i]) == if i < cpre.len() {
                cpre[i]
            } else {
                tc[i - cpre.len()]
            });
    }
}

/// An element-wise copy of an exponent vector.
fn clone_mono(mono: &Vec<u64>) -> (r: Vec<u64>)
    ensures
        r@ == mono@,
{
    let r = mono.clone();
    proof {
        assert(r@ =~= mono@);
    }
    r
}

/// Element-wise equality of two exponent vectors.
fn monos_equal(a: &Vec<u64>, b: &Vec<u64>) -> (r: bool)
    ensures
        r == (a@ == b@),
{
    if a.len() != b.len() {
        proof {
            assert(a@ != b@);
        }
        return false;
    }
    let n = a.len();
    let mut i: usize = 0;
    while i < n
        invariant
            n == a@.len() == b@.len(),
            0 <= i <= n,
            forall|p: int| 0 <= p < i ==> a@[p] == b@[p],
        decreases n - i,
    {
        if a[i] != b[i] {
            proof {
                assert(a@[i as int] != b@[i as int]);
            }
            return false;
        }
        i = i + 1;
    }
    proof {
        assert(a@ =~= b@);
    }
    true
}

/// Distinctness of the monomials of an accumulator.
pub open spec fn monos_distinct(ts: Seq<(Seq<u64>, Frac)>) -> bool {
    forall|i1: int, i2: int|
        0 <= i1 < i2 < ts.len() ==> (#[trigger] ts[i1]).0 != (#[trigger] ts[i2]).0
}

/// Adds one contribution term to the accumulator: onto the entry with the
/// same monomial if one exists, as a fresh entry otherwise. `target` is the
/// ghost value the coefficient stands for.
fn accumulate(
    out: &mut Vec<(Vec<u64>, BigRational)>,
    m2: Vec<u64>,
    c: BigRational,
    Ghost(target): Ghost<Frac>,
)
    requires
        monos_distinct(terms_of(old(out)@)),
        coefs_wf(terms_of(old(out)@)),
        target.wf(),
        frac_of(c).wf(),
        frac_of(c).equiv(target),
    ensures
        monos_distinct(terms_of(final(out)@)),
        coefs_wf(terms_of(final(out)@)),
        forall|k: int|
            0 <= k < terms_of(final(out)@).len() ==> (exists|k0: int|
                0 <= k0 < terms_of(old(out)@).len() && (#[trigger] terms_of(final(out)@)[k]).0
                    == terms_of(old(out)@)[k0].0) || (#[trigger] terms_of(final(out)@)[k]).0
                == m2@,
        forall|m: Seq<u64>| #![all_triggers]
            sum_at(terms_of(final(out)@), m).equiv(
                sum_at(terms_of(old(out)@).push((m2@, target)), m),
            ),
{
    let ghost acc = terms_of(out@);
    let n = out.len();
    let mut j: usize = 0;
    while j < n
        invariant
            n == out@.len(),
            0 <= j <= n,
            acc == terms_of(out@),
            out@ == old(out)@,
            monos_distinct(acc),
            coefs_wf(acc),
            target.wf(),
            frac_of(c).wf(),
            frac_of(c).equiv(target),
            forall|p: int| 0 <= p < j ==> (#[trigger] acc[p]).0 != m2@,
        decreases n - j,
    {
        if monos_equal(&out[j].0, &m2) {
            proof {
                assert(acc[j as int].0 == m2@);
            }
            let mj = clone_mono(&out[j].0);
            proof {
                assert(acc[j as int].1.wf());
            }
            let cj = rat_add(&out[j].1, &c);
            out.set(j, (mj, cj));
            proof {
                let jj = j as int;
                assert(terms_of(out@) =~= acc.update(jj, (acc[jj].0, frac_of(cj))));
                crate::frac::lemma_add_congruence(acc[jj].1, acc[jj].1, frac_of(c), target);
                crate::frac::lemma_add_wf(acc[jj].1, frac_of(c));
                lemma_equiv_trans(
                    frac_of(cj),
                    acc[jj].1.add(frac_of(c)),
                    acc[jj].1.add(target),
                );
                assert forall|m: Seq<u64>| #![all_triggers]
                    sum_at(terms_of(out@), m).equiv(sum_at(acc.push((m2@, target)), m)) by {
                    lemma_sum_merge(acc, jj, target, frac_of(cj), m);
                    lemma_sum_push(acc, (m2@, target), m);
                }
                assert(monos_distinct(terms_of(out@)));
                assert(coefs_wf(terms_of(out@)));
                assert forall|k: int| 0 <= k < terms_of(out@).len() implies (exists|k0: int|
                    0 <= k0 < acc.len() && (#[trigger] terms_of(out@)[k]).0 == acc[k0].0) || terms_of(
                    out@,
                )[k].0 == m2@ by {
                    assert(terms_of(out@)[k].0 == acc[k].0);
                }
            }
            return ;
        }
        j = j + 1;
    }
    proof {
        assert(frac_of(c).wf());
    }
    out.push((m2, c));
    proof {
        assert(terms_of(out@) =~= acc.push((m2@, frac_of(c))));
        assert forall|m: Seq<u64>| #![all_triggers]
            sum_at(terms_of(out@), m).equiv(sum_at(acc.push((m2@, target)), m)) by {
            lemma_sum_push(acc, (m2@, frac_of(c)), m);
            lemma_sum_push(acc, (m2@, target), m);
            if m2@ == m {
                crate::frac::lemma_add_congruence(sum_at(acc, m), sum_at(acc, m), frac_of(c), target);
            }
        }
        assert(monos_distinct(terms_of(out@))) by {
            assert(forall|p: int| 0 <= p < acc.len() ==> (#[trigger] acc[p]).0 != m2@);
        }
        assert(coefs_wf(terms_of(out@)));
        assert forall|k: int| 0 <= k < terms_of(out@).len() implies (exists|k0: int|
            0 <= k0 < acc.len() && (#[trigger] terms_of(out@)[k]).0 == acc[k0].0) || terms_of(
            out@,
        )[k].0 == m2@ by {
            if k < acc.len() {
                assert(terms_of(out@)[k].0 == acc[k].0);
            } else {
                assert(terms_of(out@)[k].0 == m2@);
            }
        }
    }
}

impl Poly {
    /// One integration step: integrates variable `var` from `from` to `to`.
    /// For every input term with coefficient `c` and exponent `e` at `var`,
    /// the antiderivative term (exponent `e+1`, coefficient `c/(e+1)`) is
    /// evaluated at the upper bound with `+` and at the lower bound with
    /// `-`; equal monomials are merged and monomials whose coefficient nets
    /// to exactly zero are removed. The result assigns every monomial
    /// exactly the total coefficient that the step's `contributions` owe.
    pub fn integrate(self, var: usize, from: &Bound, to: &Bound) -> (r: Poly)
        requires
            self.wf(),
            var < self.nbvars,
            bound_ok(*from, self.nbvars as int, var as int),
            bound_ok(*to, self.nbvars as int, var as int),
            self.deg_within(u64::MAX - 1),
        ensures
            r.wf(),
            r.nbvars == self.nbvars,
            forall|m: Seq<u64>| #![all_triggers]
                sum_at(r.terms(), m).equiv(
                    sum_at(contributions(self.terms(), var as int, *from, *to), m),
                ),
            forall|c: int| #![all_triggers] self.deg_within(c) ==> r.deg_within(c + 1),
    {
        let ghost ts = self.terms();
        let ghost v = var as int;
        let mut out: Vec<(Vec<u64>, BigRational)> = Vec::new();
        let n = self.monos.len();
        let mut i: usize = 0;
        while i < n
            invariant
                n == self.monos@.len(),
                0 <= i <= n,
                ts == self.terms(),
                v == var as int,
                self.wf(),
                var < self.nbvars,
                bound_ok(*from, self.nbvars as int, v),
                bound_ok(*to, self.nbvars as int, v),
                self.deg_within(u64::MAX - 1),
                monos_distinct(terms_of(out@)),
                coefs_wf(terms_of(out@)),
                forall|k: int|
                    0 <= k < terms_of(out@).len() ==> (#[trigger] terms_of(out@)[k]).0.len()
                        == self.nbvars,
                forall|k: int|
                    0 <= k < terms_of(out@).len() ==> exists|p: int|
                        0 <= p < ts.len() && total_deg((#[trigger] terms_of(out@)[k]).0)
                            <= total_deg(ts[p].0) + 1,
                forall|m: Seq<u64>| #![all_triggers]
                    sum_at(terms_of(out@), m).equiv(
                        sum_at(contributions(ts.subrange(0, i as int), v, *from, *to), m),
                    ),
            decreases n - i,
        {
            let ghost ii = i as int;
            let mono_i = &self.monos[i].0;
            let coef_i = &self.monos[i].1;
            proof {
                assert(ts[ii] == (self.monos@[ii].0@, frac_of(self.monos@[ii].1)));
                assert(ts[ii].0.len() == self.nbvars);
                assert(ts[ii].1.wf());
                assert(total_deg(ts[ii].0) <= u64::MAX - 1);
                lemma_entry_le_total(mono_i@, v);
            }
            let amono = antideriv_mono(mono_i, var);
            let acoef = antideriv_coef(coef_i, mono_i, var);
            let ghost t = ts[ii];
            let ghost e = t.0[v];
            let ghost ac = t.1.div_int(e + 1);
            let ghost am = spec_antideriv(t.0, v);
            proof {
                assert(amono@ == am);
                assert(frac_of(acoef).equiv(ac)) by {
                    assert(frac_of(*coef_i) == t.1);
                }
                assert(ac.wf()) by {
                    assert(t.1.d * (e + 1) > 0) by (nonlinear_arith)
                        requires
                            t.1.d > 0,
                            e >= 0,
                    ;
                }
                lemma_total_deg_update(t.0, v, (e + 1) as u64);
                assert(total_deg(am) == total_deg(t.0) + 1);
                lemma_total_deg_nonneg(t.0);
            }
            let ghost cpre = contributions(ts.subrange(0, ii), v, *from, *to);
            let ghost tci = term_contrib(t, v, *from, *to);
            proof {
                lemma_contrib_coefs_wf(ts.subrange(0, ii), v, *from, *to);
            }

            // Evaluate the antiderivative at the upper bound, contributing
            // +ac, then at the lower bound, contributing -ac.
            let ghost acc0 = terms_of(out@);
            let ghost cmid = match *to {
                Bound::Zero => cpre,
                Bound::One => cpre.push((spec_subst_const(am, v), ac)),
                Bound::Var(w0) => cpre.push((spec_subst_var(am, v, w0 as int), ac)),
            };
            match to {
                Bound::Zero => {},
                Bound::One => {
                    let m2 = mono_subst_const(&amono, var);
                    proof {
                        lemma_total_deg_update(am, v, 0u64);
                        lemma_entry_le_total(am, v);
                        assert(total_deg(m2@) <= total_deg(t.0) + 1);
                    }
                    let cup = rat_clone(&acoef);
                    accumulate(&mut out, m2, cup, Ghost(ac));
                    proof {
                        lemma_transfer_push(
                            acc0,
                            cpre,
                            terms_of(out@),
                            (spec_subst_const(am, v), ac),
                        );
                    }
                },
                Bound::Var(w) => {
                    proof {
                        lemma_two_entries_le_total(am, v, *w as int);
                    }
                    let m2 = mono_subst_var(&amono, var, *w);
                    proof {
                        let ww = *w as int;
                        lemma_total_deg_update(am, ww, (am[ww] + am[v]) as u64);
                        lemma_total_deg_update(am.update(ww, (am[ww] + am[v]) as u64), v, 0u64);
                        assert(am.update(ww, (am[ww] + am[v]) as u64)[v] == am[v]);
                        assert(total_deg(m2@) <= total_deg(t.0) + 1);
                    }
                    let cup = rat_clone(&acoef);
                    accumulate(&mut out, m2, cup, Ghost(ac));
                    proof {
                        lemma_transfer_push(
                            acc0,
                            cpre,
                            terms_of(out@),
                            (spec_subst_var(am, v, *w as int), ac),
                        );
                    }
                },
            }
            proof {
                assert(coefs_wf(cmid)) by {
                    assert(forall|p: int|
                        0 <= p < cpre.len() ==> (#[trigger] cmid[p]) == cpre[p]);
                }
                assert(forall|m: Seq<u64>| #![all_triggers]
                    sum_at(terms_of(out@), m).equiv(sum_at(cmid, m)));
            }

            let ghost acc1 = terms_of(out@);
            match from {
                Bound::Zero => {},
                Bound::One => {
                    let m2 = mono_subst_const(&amono, var);
                    proof {
                        lemma_total_deg_update(am, v, 0u64);
                        lemma_entry_le_total(am, v);
                        assert(total_deg(m2@) <= total_deg(t.0) + 1);
                    }
                    let cdown = rat_neg(&acoef);
                    proof {
                        assert(frac_of(cdown) == frac_of(acoef).neg());
                        crate::frac::lemma_neg_congruence(frac_of(acoef), ac);
                    }
                    accumulate(&mut out, m2, cdown, Ghost(ac.neg()));
                    proof {
                        lemma_transfer_push(
                            acc1,
                            cmid,
                            terms_of(out@),
                            (spec_subst_const(am, v), ac.neg()),
                        );
                    }
                },
                Bound::Var(w) => {
                    proof {
                        lemma_two_entries_le_total(am, v, *w as int);
                    }
                    let m2 = mono_subst_var(&amono, var, *w);
                    proof {
                        let ww = *w as int;
                        lemma_total_deg_update(am, ww, (am[ww] + am[v]) as u64);
                        lemma_total_deg_update(am.update(ww, (am[ww] + am[v]) as u64), v, 0u64);
                        assert(am.update(ww, (am[ww] + am[v]) as u64)[v] == am[v]);
                        assert(total_deg(m2@) <= total_deg(t.0) + 1);
                    }
                    let cdown = rat_neg(&acoef);
                    proof {
                        assert(frac_of(cdown) == frac_of(acoef).neg());
                        crate::frac::lemma_neg_congruence(frac_of(acoef), ac);
                    }
                    accumulate(&mut out, m2, cdown, Ghost(ac.neg()));
                    proof {
                        lemma_transfer_push(
                            acc1,
                            cmid,
                            terms_of(out@),
                            (spec_subst_var(am, v, *w as int), ac.neg()),
                        );
                    }
                },
            }

            proof {
                // The processed prefix now includes term i.
                assert(ts.subrange(0, ii + 1) =~= ts.subrange(0, ii).push(t));
                lemma_contributions_push(ts.subrange(0, ii), t, v, *from, *to);
                let cnext = contributions(ts.subrange(0, ii + 1), v, *from, *to);
                // cnext == cpre + tci; relate it to the pushes made above.
                let upper: Seq<(Seq<u64>, Frac)> = match *to {
                    Bound::Zero => Seq::<(Seq<u64>, Frac)>::empty(),
                    Bound::One => seq![(spec_subst_const(am, v), ac)],
                    Bound::Var(w0) => seq![(spec_subst_var(am, v, w0 as int), ac)],
                };
                let lower: Seq<(Seq<u64>, Frac)> = match *from {
                    Bound::Zero => Seq::<(Seq<u64>, Frac)>::empty(),
                    Bound::One => seq![(spec_subst_const(am, v), ac.neg())],
                    Bound::Var(w0) => seq![(spec_subst_var(am, v, w0 as int), ac.neg())],
                };
                assert(tci == upper + lower);
                assert(cmid =~= cpre + upper);
                match *from {
                    Bound::Zero => {
                        assert(cnext =~= cmid);
                    },
                    Bound::One => {
                        assert(cnext =~= cmid.push((spec_subst_const(am, v), ac.neg())));
                    },
                    Bound::Var(w0) => {
                        assert(cnext =~= cmid.push(
                            (spec_subst_var(am, v, w0 as int), ac.neg()),
                        ));
                    },
                }
            }
            i = i + 1;
        }

        proof {
            assert(ts.subrange(0, n as int) =~= ts);
        }

        // Canonical form: remove the monomials whose coefficient nets to
        // exactly zero.
        let ghost full = terms_of(out@);
        let mut res: Vec<(Vec<u64>, BigRational)> = Vec::new();
        let m = out.len();
        let mut k: usize = 0;
        while k < m
            invariant
                m == out@.len(),
                0 <= k <= m,
                full == terms_of(out@),
                monos_distinct(full),
                coefs_wf(full),
                monos_distinct(terms_of(res@)),
                coefs_wf(terms_of(res@)),
                forall|q: int|
                    0 <= q < terms_of(res@).len() ==> (#[trigger] terms_of(res@)[q]).1.n != 0,
                forall|q: int|
                    0 <= q < terms_of(res@).len() ==> exists|p: int|
                        0 <= p < k && (#[trigger] terms_of(res@)[q]).0 == full[p].0 && terms_of(
                            res@,
                        )[q].1 == full[p].1,
                forall|mm: Seq<u64>| #![all_triggers]
                    sum_at(terms_of(res@), mm).equiv(sum_at(full.subrange(0, k as int), mm)),
            decreases m - k,
        {
            let ghost kk = k as int;
            let ghost resk = terms_of(res@);
            proof {
                assert(full[kk].1.wf());
                assert(full.subrange(0, kk + 1) =~= full.subrange(0, kk).push(full[kk]));
            }
            if rat_is_zero(&out[k].1) {
                proof {
                    assert(full[kk].1.is_zero());
                    assert forall|mm: Seq<u64>| #![all_triggers]
                        sum_at(resk, mm).equiv(sum_at(full.subrange(0, kk + 1), mm)) by {
                        lemma_sum_push(full.subrange(0, kk), full[kk], mm);
                        if full[kk].0 == mm {
                            lemma_add_zero(sum_at(full.subrange(0, kk), mm), full[kk].1);
                            assert(coefs_wf(full.subrange(0, kk))) by {
                                assert(forall|p: int|
                                    0 <= p < kk ==> (#[trigger] full.subrange(0, kk)[p]) == full[p]);
                            }
                            lemma_sum_at_wf(full.subrange(0, kk), mm);
                            lemma_equiv_trans(
                                sum_at(resk, mm),
                                sum_at(full.subrange(0, kk), mm),
                                sum_at(full.subrange(0, kk + 1), mm),
                            );
                        }
                    }
                }
            } else {
                let mk = clone_mono(&out[k].0);
                let ck = rat_clone(&out[k].1);
                res.push((mk, ck));
                proof {
                    assert(terms_of(res@) =~= resk.push((full[kk].0, full[kk].1)));
                    assert forall|mm: Seq<u64>| #![all_triggers]
                        sum_at(terms_of(res@), mm).equiv(sum_at(full.subrange(0, kk + 1), mm)) by {
                        lemma_sum_push(resk, full[kk], mm);
                        lemma_sum_push(full.subrange(0, kk), full[kk], mm);
                        if full[kk].0 == mm {
                            crate::frac::lemma_add_congruence(
                                sum_at(resk, mm),
                                sum_at(full.subrange(0, kk), mm),
                                full[kk].1,
                                full[kk].1,
                            );
                        }
                    }
                    // Distinctness: the new monomial comes from position kk
                    // of `full`, every earlier kept one from an earlier
                    // position, and `full`'s monomials are distinct.
                    assert forall|q: int|
                        0 <= q < resk.len() implies (#[trigger] resk[q]).0 != full[kk].0 by {
                        let p = choose|p: int|
                            0 <= p < kk && (#[trigger] resk[q]).0 == full[p].0 && resk[q].1
                                == full[p].1;
                        assert(full[p].0 != full[kk].0);
                    }
                    assert(monos_distinct(terms_of(res@)));
                }
            }
            k = k + 1;
        }
        proof {
            assert(full.subrange(0, m as int) =~= full);
        }

        let r = Poly { nbvars: self.nbvars, monos: res };
        proof {
            assert(r.terms() == terms_of(res@));
            // Well-formedness of the result.
            assert forall|q: int|
                0 <= q < r.terms().len() implies (#[trigger] r.terms()[q]).0.len()
                == self.nbvars by {
                let p = choose|p: int|
                    0 <= p < m && (#[trigger] r.terms()[q]).0 == full[p].0 && r.terms()[q].1
                        == full[p].1;
                assert(full[p].0.len() == self.nbvars);
            }
            // Pointwise sums carry over from `full` to the pruned result.
            assert forall|mm: Seq<u64>| #![all_triggers]
                sum_at(r.terms(), mm).equiv(sum_at(contributions(ts, v, *from, *to), mm)) by {
                lemma_contrib_coefs_wf(ts, v, *from, *to);
                lemma_sum_at_wf(full, mm);
                lemma_equiv_trans(
                    sum_at(r.terms(), mm),
                    sum_at(full, mm),
                    sum_at(contributions(ts, v, *from, *to), mm),
                );
            }
            // Degree growth: every kept monomial is within one of an input.
            assert forall|c: int| #![all_triggers] self.deg_within(c) implies r.deg_within(c + 1) by {
                assert forall|q: int|
                    0 <= q < r.terms().len() implies total_deg((#[trigger] r.terms()[q]).0) <= c
                    + 1 by {
                    let p = choose|p: int|
                        0 <= p < m && (#[trigger] r.terms()[q]).0 == full[p].0 && r.terms()[q].1
                            == full[p].1;
                    assert(exists|p2: int|
                        0 <= p2 < ts.len() && total_deg((#[trigger] terms_of(out@)[p]).0)
                            <= total_deg(ts[p2].0) + 1);
                    let p2 = choose|p2: int|
                        0 <= p2 < ts.len() && total_deg(full[p].0) <= total_deg(
                            (#[trigger] ts[p2]).0,
                        ) + 1;
                    assert(total_deg(ts[p2].0) <= c);
                }
            }
        }
        r
    }
}

/// The rendering of a monomial's factors up to variable `upto`: each
/// positive exponent contributes its variable's name, with `^exponent` when
/// the exponent exceeds one, separated by single spaces.
pub open spec fn has_factor(m: Seq<u64>, upto: int) -> bool {
    exists|p: int| 0 <= p < upto && m[p] > 0
}

pub open spec fn mono_factors(names: Seq<Seq<char>>, m: Seq<u64>, upto: int) -> Seq<char>
    decreases upto,
{
    if upto <= 0 {
        Seq::<char>::empty()
    } else {
        let prefix = mono_factors(names, m, upto - 1);
        if m[upto - 1] > 0 {
            let piece = names[upto - 1] + if m[upto - 1] > 1 {
                seq!['^'] + crate::maths::dec_spec(m[upto - 1] as int)
            } else {
                Seq::<char>::empty()
            };
            if !has_factor(m, upto - 1) {
                prefix + piece
            } else {
                prefix + seq![' '] + piece
            }
        } else {
            prefix
        }
    }
}

/// The rendering of a whole monomial: its factors, or `1` when every
/// exponent is zero.
pub open spec fn mono_render(names: Seq<Seq<char>>, m: Seq<u64>) -> Seq<char> {
    let r = mono_factors(names, m, m.len() as int);
    if r.len() == 0 {
        seq!['1']
    } else {
        r
    }
}

/// Renders a monomial against the specification's name table. Looks up
/// only the variables with positive exponents, which must be declared.
pub fn mono_pp(spec: &crate::integral::IntegralSpec, mono: &Vec<u64>) -> (r: String)
    requires
        forall|i: int|
            0 <= i < mono@.len() && (#[trigger] mono@[i]) > 0 ==> i < spec.var_names@.len(),
    ensures
        r@ == mono_render(
            spec.var_names@.map_values(|s: String| s@),
            mono@,
        ),
{
    let ghost names = spec.var_names@.map_values(|s: String| s@);
    let n = mono.len();
    let mut res = String::new();
    let mut first = true;
    let mut i: usize = 0;
    while i < n
        invariant
            n == mono@.len(),
            names == spec.var_names@.map_values(|s: String| s@),
            forall|p: int|
                0 <= p < n && (#[trigger] mono@[p]) > 0 ==> p < spec.var_names@.len(),
            0 <= i <= n,
            res@ == mono_factors(names, mono@, i as int),
            first == !has_factor(mono@, i as int),
        decreases n - i,
    {
        let d = mono[i];
        if d > 0 {
            proof {
                assert(has_factor(mono@, i as int + 1)) by {
                    assert(0 <= (i as int) && (i as int) < i as int + 1 && mono@[i as int] > 0);
                }
            }
            if first {
                first = false;
            } else {
                res.append(" ");
                proof {
                    reveal_strlit(" ");
                }
            }
            let nm = spec.var_name(i);
            res.append(nm.as_str());
            if d > 1 {
                res.append("^");
                proof {
                    reveal_strlit("^");
                }
                let ds = crate::maths::u64_to_string(d);
                res.append(ds.as_str());
            }
            proof {
                assert(res@ =~= mono_factors(names, mono@, i as int + 1));
            }
        }
        i = i + 1;
    }
    if res.unicode_len() == 0 {
        let one = String::from_str("1");
        proof {
            reveal_strlit("1");
            assert(one@ =~= mono_render(names, mono@));
        }
        one
    } else {
        res
    }
}

/// Descending lexicographic order on exponent vectors, longer prefixes
/// deciding first.
pub open spec fn lex_ge(a: Seq<u64>, b: Seq<u64>) -> bool
    decreases a.len(),
{
    if a.len() == 0 {
        b.len() == 0
    } else if b.len() == 0 {
        true
    } else if a[0] > b[0] {
        true
    } else if a[0] < b[0] {
        false
    } else {
        lex_ge(a.drop_first(), b.drop_first())
    }
}

/// Inserts a term into a list sorted by descending monomial order.
pub open spec fn insert_desc(
    t: (Seq<u64>, Frac),
    sorted: Seq<(Seq<u64>, Frac)>,
) -> Seq<(Seq<u64>, Frac)>
    decreases sorted.len(),
{
    if sorted.len() == 0 {
        seq![t]
    } else if lex_ge(t.0, sorted[0].0) {
        seq![t] + sorted
    } else {
        seq![sorted[0]] + insert_desc(t, sorted.drop_first())
    }
}

/// The terms sorted by descending monomial order, by repeated insertion.
pub open spec fn sort_desc(ts: Seq<(Seq<u64>, Frac)>) -> Seq<(Seq<u64>, Frac)>
    decreases ts.len(),
{
    if ts.len() == 0 {
        Seq::<(Seq<u64>, Frac)>::empty()
    } else {
        insert_desc(ts.last(), sort_desc(ts.drop_last()))
    }
}

/// The display convention for one term: positive coefficients join with
/// ` + `, negative ones with ` - ` and their absolute value; a unit
/// coefficient is elided unless the monomial is the constant 1.
pub open spec fn term_render(names: Seq<Seq<char>>, t: (Seq<u64>, Frac), first: bool) -> Seq<
    char,
> {
    let smono = mono_render(names, t.0);
    let positive = t.1.n * t.1.d > 0;
    let lead = if positive {
        if first {
            Seq::<char>::empty()
        } else {
            seq![' ', '+', ' ']
        }
    } else {
        if first {
            seq!['-']
        } else {
            seq![' ', '-', ' ']
        }
    };
    let abs_render = if positive {
        crate::rat::rat_render(t.1.n, t.1.d)
    } else {
        crate::rat::rat_render(-t.1.n, t.1.d)
    };
    let show_coef = if positive {
        !t.1.equiv(Frac::one()) || smono == seq!['1']
    } else {
        !t.1.neg().equiv(Frac::one()) || smono == seq!['1']
    };
    let coef_part = if show_coef {
        abs_render + if smono == seq!['1'] {
            Seq::<char>::empty()
        } else {
            seq![' ']
        }
    } else {
        Seq::<char>::empty()
    };
    lead + coef_part + if smono == seq!['1'] {
        Seq::<char>::empty()
    } else {
        smono
    }
}

/// The rendering of a sorted term list.
pub open spec fn terms_render(names: Seq<Seq<char>>, ts: Seq<(Seq<u64>, Frac)>, first: bool) -> Seq<
    char,
>
    decreases ts.len(),
{
    if ts.len() == 0 {
        Seq::<char>::empty()
    } else {
        term_render(names, ts[0], first) + terms_render(names, ts.drop_first(), false)
    }
}

/// The canonical display of a polynomial: terms sorted by descending
/// monomial order under standard sign and unit-elision conventions.
pub open spec fn poly_render(names: Seq<Seq<char>>, p: Poly) -> Seq<char> {
    terms_render(names, sort_desc(p.terms()), true)
}

/// Whether a rendered monomial is the constant `1`.
fn is_one_str(s: &String) -> (r: bool)
    ensures
        r == (s@ == seq!['1']),
{
    let r = s.as_str().unicode_len() == 1 && s.as_str().get_char(0) == '1';
    proof {
        if r {
            assert(s@ =~= seq!['1']);
        }
        if s@ == seq!['1'] {
            assert(s@.len() == 1 && s@[0] == '1');
        }
    }
    r
}

fn lex_ge_exec(a: &Vec<u64>, b: &Vec<u64>) -> (r: bool)
    ensures
        r == lex_ge(a@, b@),
{
    let la = a.len();
    let lb = b.len();
    let mut k: usize = 0;
    proof {
        assert(a@.skip(0) =~= a@);
        assert(b@.skip(0) =~= b@);
    }
    while k < la && k < lb
        invariant
            la == a@.len(),
            lb == b@.len(),
            0 <= k,
            k <= la,
            k <= lb,
            forall|p: int| 0 <= p < k ==> a@[p] == b@[p],
            lex_ge(a@, b@) == lex_ge(a@.skip(k as int), b@.skip(k as int)),
        decreases la - k,
    {
        proof {
            assert(a@.skip(k as int)[0] == a@[k as int]);
            assert(b@.skip(k as int)[0] == b@[k as int]);
            assert(a@.skip(k as int).drop_first() =~= a@.skip(k as int + 1));
            assert(b@.skip(k as int).drop_first() =~= b@.skip(k as int + 1));
        }
        if a[k] > b[k] {
            return true;
        }
        if a[k] < b[k] {
            return false;
        }
        k = k + 1;
    }
    proof {
        if k == la {
            assert(a@.skip(k as int).len() == 0);
        } else {
            assert(b@.skip(k as int).len() == 0);
            assert(a@.skip(k as int).len() > 0);
        }
    }
    la >= lb
}

/// Inserting at the first position whose monomial does not dominate keeps
/// the insertion-sort recursion's result.
proof fn lemma_insert_desc_at(t: (Seq<u64>, Frac), s: Seq<(Seq<u64>, Frac)>, j: int)
    requires
        0 <= j <= s.len(),
        forall|k: int| 0 <= k < j ==> !lex_ge(t.0, (#[trigger] s[k]).0),
        j < s.len() ==> lex_ge(t.0, s[j].0),
    ensures
        insert_desc(t, s) == s.take(j) + seq![t] + s.skip(j),
    decreases j,
{
    if j == 0 {
        if s.len() == 0 {
            assert(insert_desc(t, s) =~= s.take(0) + seq![t] + s.skip(0));
        } else {
            assert(insert_desc(t, s) =~= s.take(0) + seq![t] + s.skip(0));
        }
    } else {
        assert(!lex_ge(t.0, s[0].0));
        assert(forall|k: int|
            0 <= k < j - 1 ==> s.drop_first()[k] == s[k + 1] && !lex_ge(
                t.0,
                (#[trigger] s.drop_first()[k]).0,
            ));
        if j - 1 < s.drop_first().len() {
            assert(s.drop_first()[j - 1] == s[j]);
        }
        lemma_insert_desc_at(t, s.drop_first(), j - 1);
        assert(insert_desc(t, s) =~= s.take(j) + seq![t] + s.skip(j)) by {
            assert(insert_desc(t, s) == seq![s[0]] + insert_desc(t, s.drop_first()));
            assert(forall|k: int|
                0 <= k < j - 1 ==> (#[trigger] s.drop_first().take(j - 1)[k]) == s.take(j)[k
                    + 1]);
        }
    }
}

/// The rendering of a term list splits at any point, the tail rendered as
/// non-first whenever the head is non-empty.
proof fn lemma_terms_render_split(
    names: Seq<Seq<char>>,
    s: Seq<(Seq<u64>, Frac)>,
    k: int,
    first: bool,
)
    requires
        0 <= k <= s.len(),
    ensures
        terms_render(names, s, first) == terms_render(names, s.take(k), first) + terms_render(
            names,
            s.skip(k),
            if k == 0 {
                first
            } else {
                false
            },
        ),
    decreases k,
{
    if k == 0 {
        assert(s.take(0).len() == 0);
        assert(s.skip(0) =~= s);
    } else {
        assert(s.len() > 0);
        lemma_terms_render_split(names, s.drop_first(), k - 1, false);
        assert(s.take(k).drop_first() =~= s.drop_first().take(k - 1));
        assert(s.skip(k) =~= s.drop_first().skip(k - 1));
        assert(s.take(k)[0] == s[0]);
        assert(terms_render(names, s.take(k), first) == term_render(names, s[0], first)
            + terms_render(names, s.drop_first().take(k - 1), false));
    }
}

/// Renders a polynomial in canonical display order: monomials descending
/// lexicographically, signs and unit coefficients per standard convention.
pub fn poly_pp(spec: &crate::integral::IntegralSpec, poly: &Poly) -> (r: String)
    requires
        poly.wf(),
        forall|i: int|
            0 <= i < poly.terms().len() ==> (#[trigger] poly.terms()[i]).0.len()
                <= spec.var_names@.len(),
    ensures
        r@ == poly_render(spec.var_names@.map_values(|s: String| s@), *poly),
{
    let ghost names = spec.var_names@.map_values(|s: String| s@);
    let n = poly.monos.len();
    let mut sorted: Vec<(Vec<u64>, BigRational)> = Vec::new();
    let mut i: usize = 0;
    while i < n
        invariant
            n == poly.monos@.len(),
            poly.wf(),
            names == spec.var_names@.map_values(|s: String| s@),
            forall|q: int|
                0 <= q < poly.terms().len() ==> (#[trigger] poly.terms()[q]).0.len()
                    <= spec.var_names@.len(),
            0 <= i <= n,
            terms_of(sorted@) == sort_desc(poly.terms().take(i as int)),
            forall|q: int|
                0 <= q < sorted@.len() ==> (#[trigger] terms_of(sorted@)[q]).1.wf() && terms_of(
                    sorted@,
                )[q].0.len() <= spec.var_names@.len(),
        decreases n - i,
    {
        let m = clone_mono(&poly.monos[i].0);
        let c = rat_clone(&poly.monos[i].1);
        proof {
            assert(poly.terms()[i as int].1.wf());
            assert((m@, frac_of(c)) == poly.terms()[i as int]);
        }
        let slen = sorted.len();
        let mut j: usize = 0;
        while j < slen && !lex_ge_exec(&m, &sorted[j].0)
            invariant
                slen == sorted@.len(),
                0 <= j <= slen,
                forall|k: int|
                    0 <= k < j ==> !lex_ge(m@, (#[trigger] terms_of(sorted@)[k]).0),
            decreases slen - j,
        {
            proof {
                assert(terms_of(sorted@)[j as int].0 == sorted@[j as int].0@);
            }
            j = j + 1;
        }
        proof {
            if j < slen {
                assert(lex_ge(m@, terms_of(sorted@)[j as int].0));
            }
            lemma_insert_desc_at((m@, frac_of(c)), terms_of(sorted@), j as int);
        }
        let ghost spre = terms_of(sorted@);
        sorted.insert(j, (m, c));
        proof {
            assert(terms_of(sorted@) =~= spre.take(j as int) + seq![
                (poly.terms()[i as int].0, poly.terms()[i as int].1),
            ] + spre.skip(j as int));
            assert(poly.terms().take(i as int + 1).drop_last() =~= poly.terms().take(i as int));
            assert(poly.terms().take(i as int + 1).last() == poly.terms()[i as int]);
            assert(terms_of(sorted@) == sort_desc(poly.terms().take(i as int + 1)));
        }
        i = i + 1;
    }
    proof {
        assert(poly.terms().take(n as int) =~= poly.terms());
    }
    let ghost allsorted = sort_desc(poly.terms());

    let mut res = String::new();
    let mut first = true;
    let sn = sorted.len();
    let mut k: usize = 0;
    proof {
        assert(allsorted.take(0).len() == 0);
    }
    while k < sn
        invariant
            sn == sorted@.len(),
            names == spec.var_names@.map_values(|s: String| s@),
            terms_of(sorted@) == allsorted,
            forall|q: int|
                0 <= q < sorted@.len() ==> (#[trigger] terms_of(sorted@)[q]).1.wf() && terms_of(
                    sorted@,
                )[q].0.len() <= spec.var_names@.len(),
            0 <= k <= sn,
            res@ == terms_render(names, allsorted.take(k as int), true),
            first == (k == 0),
        decreases sn - k,
    {
        let ghost t = allsorted[k as int];
        proof {
            assert(terms_of(sorted@)[k as int] == t);
            assert(t.1.wf());
            assert(sorted@[k as int].0@ == t.0);
            assert(frac_of(sorted@[k as int].1) == t.1);
        }
        let smono = mono_pp(spec, &sorted[k].0);
        let cref = &sorted[k].1;
        let positive = rat_is_positive(cref);
        let one = rat_from_i64(1);
        let mono_is_one = is_one_str(&smono);
        let ghost res0 = res@;
        if positive {
            if first {
                first = false;
            } else {
                res.append(" + ");
                proof {
                    reveal_strlit(" + ");
                }
            }
            let show = !rat_eq(cref, &one) || mono_is_one;
            if show {
                let cs = rat_to_string(cref);
                res.append(cs.as_str());
                if !mono_is_one {
                    res.append(" ");
                    proof {
                        reveal_strlit(" ");
                    }
                }
            }
        } else {
            if first {
                first = false;
                res.append("-");
                proof {
                    reveal_strlit("-");
                }
            } else {
                res.append(" - ");
                proof {
                    reveal_strlit(" - ");
                }
            }
            let negc = rat_neg(cref);
            let show = !rat_eq(&negc, &one) || mono_is_one;
            if show {
                let cs = rat_to_string(&negc);
                res.append(cs.as_str());
                if !mono_is_one {
                    res.append(" ");
                    proof {
                        reveal_strlit(" ");
                    }
                }
            }
        }
        if !mono_is_one {
            res.append(smono.as_str());
        }
        proof {
            assert(frac_of(one) == Frac::one());
            assert(res@ =~= res0 + term_render(names, t, k == 0));
            lemma_terms_render_split(names, allsorted.take(k as int + 1), k as int, true);
            assert(allsorted.take(k as int + 1).take(k as int) =~= allsorted.take(k as int));
            assert(allsorted.take(k as int + 1).skip(k as int) =~= seq![t]);
            assert(terms_render(names, seq![t], (if k == 0 {
                true
            } else {
                false
            })) == term_render(names, t, k == 0) + terms_render(
                names,
                seq![t].drop_first(),
                false,
            ));
            assert(seq![t].drop_first().len() == 0);
            assert(res@ =~= terms_render(names, allsorted.take(k as int + 1), true));
        }
        k = k + 1;
    }
    proof {
        assert(allsorted.take(sn as int) =~= allsorted);
    }
    res
}

/// The error taxonomy of the pipeline: malformed input matrices, a DAG no
/// rewrite applies to, an integral whose final polynomial is not a single
/// constant (reported with that polynomial), a host-configured resource
/// limit, and a specification that fails the validity precondition.
#[derive(Debug)]
pub enum EngineError {
    MalformedDag,
    UnresolvableDag,
    StuckIntegral(Poly),
    ResourceExceeded,
    InvalidSpec,
}

/// Canonical form of a ghost term list over `n` variables: one exponent per
/// variable, well-formed non-zero coefficients, no monomial twice.
pub open spec fn canon(ts: Seq<(Seq<u64>, Frac)>, n: nat) -> bool {
    &&& forall|i: int| 0 <= i < ts.len() ==> (#[trigger] ts[i]).0.len() == n
    &&& forall|i: int| 0 <= i < ts.len() ==> (#[trigger] ts[i]).1.wf()
    &&& forall|i: int| 0 <= i < ts.len() ==> (#[trigger] ts[i]).1.n != 0
    &&& monos_distinct(ts)
}

/// One link of the ideal integration chain: `b` is a canonical term list
/// that assigns every monomial exactly the coefficient owed by integrating
/// `a` per the step `el`.
pub open spec fn step_links(
    a: Seq<(Seq<u64>, Frac)>,
    b: Seq<(Seq<u64>, Frac)>,
    el: (usize, Bound, Bound),
    n: nat,
) -> bool {
    &&& canon(b, n)
    &&& forall|m: Seq<u64>| #![all_triggers]
        sum_at(b, m).equiv(sum_at(contributions(a, el.0 as int, el.1, el.2), m))
}

/// `ps` is the chain of polynomial models after each of the first `k`
/// integration steps of `elems`, starting from the constant 1.
pub open spec fn chain_upto(
    elems: Seq<(usize, Bound, Bound)>,
    ps: Seq<Seq<(Seq<u64>, Frac)>>,
    k: int,
) -> bool {
    &&& 0 <= k <= elems.len()
    &&& ps.len() == k + 1
    &&& ps[0] == seq![(zero_mono(elems.len()), Frac::one())]
    &&& forall|i: int| 0 <= i < k ==> step_links(#[trigger] ps[i], ps[i + 1], elems[i], elems.len())
}

/// The full integration chain of `elems`.
pub open spec fn chain_ok(elems: Seq<(usize, Bound, Bound)>, ps: Seq<Seq<(Seq<u64>, Frac)>>) -> bool {
    chain_upto(elems, ps, elems.len() as int)
}

/// A single all-zero monomial: the shape of a finished integral.
pub open spec fn constant_form(ts: Seq<(Seq<u64>, Frac)>) -> bool {
    ts.len() == 1 && ts[0].0 == zero_mono(ts[0].0.len())
}

/// A valid specification admits every step: the integrated variable is in
/// range and each referenced bound variable is a different, later variable.
proof fn lemma_valid_step(s: crate::integral::IntegralSpec, i: int)
    requires
        s.valid(),
        0 <= i < s.elements@.len(),
    ensures
        (s.elements@[i].0 as int) < s.elements@.len(),
        bound_ok(s.elements@[i].1, s.elements@.len() as int, s.elements@[i].0 as int),
        bound_ok(s.elements@[i].2, s.elements@.len() as int, s.elements@[i].0 as int),
{
    let elems = s.elements@;
    assert(elems[i].0 < elems.len());
    if elems[i].1 is Var {
        let w = elems[i].1->Var_0;
        let j = choose|j: int| i < j < elems.len() && (#[trigger] elems[j]).0 == w;
        assert(elems[j].0 < elems.len());
        assert(elems[i].0 != elems[j].0);
    }
    if elems[i].2 is Var {
        let w = elems[i].2->Var_0;
        let j = choose|j: int| i < j < elems.len() && (#[trigger] elems[j]).0 == w;
        assert(elems[j].0 < elems.len());
        assert(elems[i].0 != elems[j].0);
    }
}

/// Evaluates a whole specification: seeds the constant polynomial 1 over
/// one variable per step and integrates the steps in emission order.
/// Fails on an invalid specification, when a step leaves more than
/// `max_monos` monomials, or when the final polynomial is not a single
/// constant.
pub fn integrate_spec(spec: &crate::integral::IntegralSpec, max_monos: usize) -> (r: Result<
    BigRational,
    EngineError,
>)
    ensures
        (r == Result::<BigRational, EngineError>::Err(EngineError::InvalidSpec)) <==> !spec.valid(),
        spec.valid() ==> match r {
            Result::Ok(c) => exists|ps: Seq<Seq<(Seq<u64>, Frac)>>|
                #![all_triggers]
                chain_ok(spec.elements@, ps) && constant_form(ps.last()) && frac_of(c).wf()
                    && frac_of(c) == ps.last()[0].1,
            Result::Err(e) => match e {
                EngineError::StuckIntegral(p) => exists|ps: Seq<Seq<(Seq<u64>, Frac)>>|
                    #![all_triggers]
                    chain_ok(spec.elements@, ps) && p.terms() == ps.last() && !constant_form(
                        ps.last(),
                    ),
                EngineError::ResourceExceeded => exists|ps: Seq<Seq<(Seq<u64>, Frac)>>, k: int|
                    #![all_triggers]
                    chain_upto(spec.elements@, ps, k) && ps.last().len() > max_monos,
                _ => false,
            },
        },
{
    if !spec.check_valid() {
        return Err(EngineError::InvalidSpec);
    }
    let n = spec.elements.len();
    let ghost elems = spec.elements@;
    let mut poly = Poly::new(n);
    proof {
        assert(poly.terms() =~= seq![(zero_mono(n as nat), Frac::one())]);
    }
    let ghost mut ps: Seq<Seq<(Seq<u64>, Frac)>> = seq![poly.terms()];
    let mut i: usize = 0;
    while i < n
        invariant
            n == spec.elements@.len(),
            elems == spec.elements@,
            spec.valid(),
            0 <= i <= n,
            poly.wf(),
            poly.nbvars == n,
            poly.deg_within(i as int),
            ps.len() == i + 1,
            chain_upto(elems, ps, i as int),
            poly.terms() == ps.last(),
        decreases n - i,
    {
        let (var, from, to) = spec.elements[i];
        proof {
            lemma_valid_step(*spec, i as int);
            assert(i < u64::MAX) by {
                assert(i < n <= usize::MAX);
            }
        }
        let next = poly.integrate(var, &from, &to);
        proof {
            ps = ps.push(next.terms());
            assert(ps.last() == next.terms());
            assert(ps[i as int + 1] == next.terms());
            assert(forall|p: int| 0 <= p <= i ==> ps[p] == ps.drop_last()[p]);
            assert(canon(next.terms(), n as nat));
            assert(step_links(ps[i as int], ps[i as int + 1], elems[i as int], n as nat));
            assert(chain_upto(elems, ps, i as int + 1));
        }
        if next.number_of_monos() > max_monos {
            proof {
                assert(exists|ps2: Seq<Seq<(Seq<u64>, Frac)>>, k: int|
                    #![all_triggers]
                    chain_upto(elems, ps2, k) && ps2.last().len() > max_monos) by {
                    assert(chain_upto(elems, ps, i as int + 1) && ps.last().len() > max_monos);
                }
            }
            return Err(EngineError::ResourceExceeded);
        }
        poly = next;
        i = i + 1;
    }
    let ghost fin = poly.terms();
    match poly.as_constant() {
        Some(c) => {
            proof {
                assert(chain_ok(elems, ps));
                assert(constant_form(fin)) by {
                    assert(fin[0].0.len() == poly.nbvars);
                }
                assert(fin[0].1.wf());
            }
            Ok(c)
        },
        None => {
            proof {
                assert(chain_ok(elems, ps));
            }
            Err(EngineError::StuckIntegral(poly))
        },
    }
}

/// The number of linear extensions of the poset a specification came from:
/// the exact integral of the specification, multiplied by n! for its n
/// variables.
pub fn linear_extension_count(spec: &crate::integral::IntegralSpec, max_monos: usize) -> (r: Result<
    BigRational,
    EngineError,
>)
    ensures
        (r == Result::<BigRational, EngineError>::Err(EngineError::InvalidSpec)) <==> !spec.valid(),
        spec.valid() ==> match r {
            Result::Ok(c) => exists|ps: Seq<Seq<(Seq<u64>, Frac)>>|
                #![all_triggers]
                chain_ok(spec.elements@, ps) && constant_form(ps.last()) && frac_of(c).wf()
                    && frac_of(c).equiv(
                    ps.last()[0].1.mul_int(
                        crate::maths::spec_factorial(spec.elements@.len()),
                    ),
                ),
            Result::Err(e) => match e {
                EngineError::StuckIntegral(p) => exists|ps: Seq<Seq<(Seq<u64>, Frac)>>|
                    #![all_triggers]
                    chain_ok(spec.elements@, ps) && p.terms() == ps.last() && !constant_form(
                        ps.last(),
                    ),
                EngineError::ResourceExceeded => exists|ps: Seq<Seq<(Seq<u64>, Frac)>>, k: int|
                    #![all_triggers]
                    chain_upto(spec.elements@, ps, k) && ps.last().len() > max_monos,
                _ => false,
            },
        },
{
    match integrate_spec(spec, max_monos) {
        Ok(c) => {
            let f = crate::maths::factorial(spec.elements.len());
            let scaled = crate::rat::rat_mul_big(&c, &f);
            proof {
                let ps = choose|ps: Seq<Seq<(Seq<u64>, Frac)>>|
                    #![all_triggers]
                    chain_ok(spec.elements@, ps) && constant_form(ps.last()) && frac_of(c).wf()
                        && frac_of(c) == ps.last()[0].1;
                assert(chain_ok(spec.elements@, ps) && constant_form(ps.last()) && frac_of(
                    scaled,
                ).wf() && frac_of(scaled).equiv(
                    ps.last()[0].1.mul_int(crate::maths::spec_factorial(spec.elements@.len())),
                ));
            }
            Ok(scaled)
        },
        Err(e) => Err(e),
    }
}

} // verus!
