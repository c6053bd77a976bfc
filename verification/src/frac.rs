//! Ghost-level rational arithmetic: fractions as integer pairs with a
//! positive denominator. Contracts about exact-rational coefficients are
//! stated over these fractions; value equality is cross-multiplication, so
//! fractions need not be kept in lowest terms.

use vstd::prelude::*;

verus! {

/// A rational value in ghost form: numerator `n` over denominator `d`.
pub ghost struct Frac {
    pub n: int,
    pub d: int,
}

impl Frac {
    /// Well-formed fractions keep the denominator positive.
    pub open spec fn wf(self) -> bool {
        self.d > 0
    }

    pub open spec fn zero() -> Frac {
        Frac { n: 0, d: 1 }
    }

    pub open spec fn one() -> Frac {
        Frac { n: 1, d: 1 }
    }

    pub open spec fn add(self, other: Frac) -> Frac {
        Frac { n: self.n * other.d + other.n * self.d, d: self.d * other.d }
    }

    pub open spec fn neg(self) -> Frac {
        Frac { n: -self.n, d: self.d }
    }

    /// Division by a (positive) integer.
    pub open spec fn div_int(self, k: int) -> Frac {
        Frac { n: self.n, d: self.d * k }
    }

    /// Multiplication by an integer.
    pub open spec fn mul_int(self, k: int) -> Frac {
        Frac { n: self.n * k, d: self.d }
    }

    /// Value equality: a/b equals c/d exactly when a*d == c*b.
    pub open spec fn equiv(self, other: Frac) -> bool {
        self.n * other.d == other.n * self.d
    }

    pub open spec fn is_zero(self) -> bool {
        self.n == 0
    }
}

pub proof fn lemma_equiv_trans(a: Frac, b: Frac, c: Frac)
    requires
        a.equiv(b),
        b.equiv(c),
        b.d != 0,
    ensures
        a.equiv(c),
{
    assert(a.n * b.d == b.n * a.d);
    assert(b.n * c.d == c.n * b.d);
    assert((a.n * c.d) * b.d == (c.n * a.d) * b.d) by (nonlinear_arith)
        requires
            a.n * b.d == b.n * a.d,
            b.n * c.d == c.n * b.d,
    ;
    assert(a.n * c.d == c.n * a.d) by (nonlinear_arith)
        requires
            (a.n * c.d) * b.d == (c.n * a.d) * b.d,
            b.d != 0,
    ;
}

/// Addition respects value equality.
pub proof fn lemma_add_congruence(a1: Frac, a2: Frac, b1: Frac, b2: Frac)
    requires
        a1.equiv(a2),
        b1.equiv(b2),
    ensures
        a1.add(b1).equiv(a2.add(b2)),
{
    assert((a1.n * b1.d) * (a2.d * b2.d) == (a2.n * b2.d) * (a1.d * b1.d)) by (nonlinear_arith)
        requires
            a1.n * a2.d == a2.n * a1.d,
    ;
    assert((b1.n * a1.d) * (a2.d * b2.d) == (b2.n * a2.d) * (a1.d * b1.d)) by (nonlinear_arith)
        requires
            b1.n * b2.d == b2.n * b1.d,
    ;
    assert((a1.n * b1.d + b1.n * a1.d) * (a2.d * b2.d) == (a1.n * b1.d) * (a2.d * b2.d) + (b1.n
        * a1.d) * (a2.d * b2.d)) by (nonlinear_arith);
    assert((a2.n * b2.d + b2.n * a2.d) * (a1.d * b1.d) == (a2.n * b2.d) * (a1.d * b1.d) + (b2.n
        * a2.d) * (a1.d * b1.d)) by (nonlinear_arith);
}

/// Negation respects value equality.
pub proof fn lemma_neg_congruence(a1: Frac, a2: Frac)
    requires
        a1.equiv(a2),
    ensures
        a1.neg().equiv(a2.neg()),
{
    assert((-a1.n) * a2.d == (-a2.n) * a1.d) by (nonlinear_arith)
        requires
            a1.n * a2.d == a2.n * a1.d,
    ;
}

/// Adding a value equal to zero does not change a fraction's value.
pub proof fn lemma_add_zero(a: Frac, z: Frac)
    requires
        z.is_zero(),
    ensures
        a.add(z).equiv(a),
        a.equiv(a.add(z)),
{
    assert((a.n * z.d + z.n * a.d) * a.d == a.n * (a.d * z.d)) by (nonlinear_arith)
        requires
            z.n == 0,
    ;
}

/// Well-formedness is preserved by addition.
pub proof fn lemma_add_wf(a: Frac, b: Frac)
    requires
        a.wf(),
        b.wf(),
    ensures
        a.add(b).wf(),
{
    assert(a.d * b.d > 0) by (nonlinear_arith)
        requires
            a.d > 0,
            b.d > 0,
    ;
}

/// Addition of fractions is associative, exactly as pairs.
pub proof fn lemma_add_assoc(a: Frac, b: Frac, c: Frac)
    ensures
        a.add(b).add(c) == a.add(b.add(c)),
{
    assert((a.n * b.d + b.n * a.d) * c.d + c.n * (a.d * b.d) == a.n * (b.d * c.d) + (b.n * c.d
        + c.n * b.d) * a.d) by (nonlinear_arith);
    assert((a.d * b.d) * c.d == a.d * (b.d * c.d)) by (nonlinear_arith);
}

/// Addition of fractions is commutative, exactly as pairs.
pub proof fn lemma_add_comm(a: Frac, b: Frac)
    ensures
        a.add(b) == b.add(a),
{
    assert(a.n * b.d + b.n * a.d == b.n * a.d + a.n * b.d) by (nonlinear_arith);
    assert(a.d * b.d == b.d * a.d) by (nonlinear_arith);
}

/// The two outer addends of a nested sum can be exchanged, exactly as pairs.
pub proof fn lemma_add_shuffle(x: Frac, y: Frac, z: Frac)
    ensures
        x.add(y).add(z) == x.add(z).add(y),
{
    lemma_add_comm(y, z);
    lemma_add_assoc(x, y, z);
    lemma_add_assoc(x, z, y);
}

} // verus!
