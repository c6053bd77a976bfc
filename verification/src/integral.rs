//! The intermediate representation exchanged between the resolution engine
//! and the polynomial engine: an ordered sequence of one-dimensional
//! integration steps, each a variable index with a lower and an upper bound,
//! together with a name table for the variables.

use vstd::prelude::*;

verus! {

/// Bound of a single integration step: the constant 0, the constant 1, or a
/// reference to another integration variable by its index.
#[derive(Clone, Copy, Debug, PartialEq, Eq, Structural)]
pub enum Bound {
    Zero,
    One,
    Var(usize),
}

/// An ordered nested-integral specification. `elements` holds the steps in
/// emission order (processed first-to-last by the integration engine); the
/// variable with index `i` is named `var_names[i]`.
pub struct IntegralSpec {
    pub var_names: Vec<String>,
    pub elements: Vec<(usize, Bound, Bound)>,
}

/// True when some registered name reads `name`.
pub open spec fn has_var(names: Seq<String>, name: Seq<char>) -> bool {
    exists|i: int| 0 <= i < names.len() && names[i]@ == name
}

/// The index of the registered name `name`; unique when names are distinct.
pub open spec fn var_index_of(names: Seq<String>, name: Seq<char>) -> int {
    choose|i: int| 0 <= i < names.len() && names[i]@ == name
}

impl IntegralSpec {
    /// Registered names are pairwise distinct.
    pub open spec fn names_distinct(self) -> bool {
        forall|i: int, j: int|
            0 <= i < j < self.var_names@.len() ==> self.var_names@[i]@ != self.var_names@[j]@
    }

    /// A step's bound is valid when any variable it references is itself
    /// integrated by a strictly later step.
    pub open spec fn bound_valid_at(self, b: Bound, pos: int) -> bool {
        match b {
            Bound::Var(w) => exists|j: int|
                pos < j < self.elements@.len() && (#[trigger] self.elements@[j]).0 == w,
            _ => true,
        }
    }

    /// Validity of the whole specification: every step integrates a variable
    /// in range, no variable is integrated twice, and every variable
    /// referenced by a bound has its own integration step strictly later in
    /// emission order.
    pub open spec fn valid(self) -> bool {
        &&& forall|i: int|
            0 <= i < self.elements@.len() ==> {
                &&& (#[trigger] self.elements@[i]).0 < self.elements@.len()
                &&& self.bound_valid_at(self.elements@[i].1, i)
                &&& self.bound_valid_at(self.elements@[i].2, i)
            }
        &&& forall|i: int, j: int|
            0 <= i < j < self.elements@.len() ==> (#[trigger] self.elements@[i]).0 != (
            #[trigger] self.elements@[j]).0
    }

    pub fn new() -> (r: IntegralSpec)
        ensures
            r.var_names@ =~= Seq::<String>::empty(),
            r.elements@ =~= Seq::<(usize, Bound, Bound)>::empty(),
    {
        IntegralSpec { var_names: Vec::new(), elements: Vec::new() }
    }

    /// Registers a variable name and returns its index: the index it already
    /// has if present, or the next free index, appending the name.
    pub fn register_var(&mut self, var_name: String) -> (r: usize)
        requires
            old(self).names_distinct(),
        ensures
            final(self).names_distinct(),
            final(self).elements@ == old(self).elements@,
            has_var(old(self).var_names@, var_name@) ==> {
                &&& final(self).var_names@ == old(self).var_names@
                &&& r == var_index_of(old(self).var_names@, var_name@)
            },
            !has_var(old(self).var_names@, var_name@) ==> {
                &&& final(self).var_names@ == old(self).var_names@.push(var_name)
                &&& r == old(self).var_names@.len()
            },
            has_var(final(self).var_names@, var_name@),
            r == var_index_of(final(self).var_names@, var_name@),
            r < final(self).var_names@.len(),
    {
        let n = self.var_names.len();
        let mut i: usize = 0;
        while i < n
            invariant
                n == self.var_names@.len(),
                0 <= i <= n,
                forall|j: int| 0 <= j < i ==> self.var_names@[j]@ != var_name@,
                self.names_distinct(),
            decreases n - i,
        {
            if self.var_names[i] == var_name {
                proof {
                    assert(self.var_names@[i as int]@ == var_name@);
                    let k = var_index_of(self.var_names@, var_name@);
                    assert(0 <= k < self.var_names@.len() && self.var_names@[k]@ == var_name@);
                    assert(k == i as int);
                }
                return i;
            }
            i = i + 1;
        }
        self.var_names.push(var_name);
        proof {
            assert(self.var_names@[n as int]@ == var_name@);
            let k = var_index_of(self.var_names@, var_name@);
            assert(0 <= k < self.var_names@.len() && self.var_names@[k]@ == var_name@);
            assert(k == n as int);
        }
        n
    }

    /// Looks a name up. The name must be registered: there is no sensible
    /// index for an unknown name.
    pub fn var_ref(&self, var_name: String) -> (r: usize)
        requires
            self.names_distinct(),
            has_var(self.var_names@, var_name@),
        ensures
            r == var_index_of(self.var_names@, var_name@),
            r < self.var_names@.len(),
            self.var_names@[r as int]@ == var_name@,
    {
        let n = self.var_names.len();
        let mut i: usize = 0;
        while i < n
            invariant
                n == self.var_names@.len(),
                0 <= i <= n,
                forall|j: int| 0 <= j < i ==> self.var_names@[j]@ != var_name@,
                self.names_distinct(),
                has_var(self.var_names@, var_name@),
            decreases n - i,
        {
            if self.var_names[i] == var_name {
                proof {
                    let k = var_index_of(self.var_names@, var_name@);
                    assert(0 <= k < self.var_names@.len() && self.var_names@[k]@ == var_name@);
                    assert(k == i as int);
                }
                return i;
            }
            i = i + 1;
        }
        proof {
            let k = var_index_of(self.var_names@, var_name@);
            assert(0 <= k < self.var_names@.len() && self.var_names@[k]@ == var_name@);
            assert(false);
        }
        0
    }

    /// The name of the variable with the given index.
    pub fn var_name(&self, var_ref: usize) -> (r: String)
        requires
            var_ref < self.var_names@.len(),
        ensures
            r@ == self.var_names@[var_ref as int]@,
    {
        let s: &String = &self.var_names[var_ref];
        s.clone()
    }

    /// Appends one integration step.
    pub fn push(&mut self, var_ref: usize, b1: Bound, b2: Bound)
        ensures
            final(self).elements@ == old(self).elements@.push((var_ref, b1, b2)),
            final(self).var_names@ == old(self).var_names@,
    {
        self.elements.push((var_ref, b1, b2))
    }

    /// Runtime check of `valid`: the checked precondition on spec validity.
    pub fn check_valid(&self) -> (r: bool)
        ensures
            r == self.valid(),
    {
        let n = self.elements.len();
        let mut i: usize = 0;
        while i < n
            invariant
                n == self.elements@.len(),
                0 <= i <= n,
                forall|k: int|
                    0 <= k < i ==> {
                        &&& (#[trigger] self.elements@[k]).0 < self.elements@.len()
                        &&& self.bound_valid_at(self.elements@[k].1, k)
                        &&& self.bound_valid_at(self.elements@[k].2, k)
                    },
                forall|k: int, l: int|
                    0 <= k < l < n && k < i ==> (#[trigger] self.elements@[k]).0 != (
                    #[trigger] self.elements@[l]).0,
            decreases n - i,
        {
            let (v, b1, b2) = self.elements[i];
            if v >= n {
                return false;
            }
            if !self.check_bound_valid(b1, i) {
                return false;
            }
            if !self.check_bound_valid(b2, i) {
                return false;
            }
            let mut l: usize = i + 1;
            while l < n
                invariant
                    n == self.elements@.len(),
                    i < l,
                    v == self.elements@[i as int].0,
                    forall|p: int|
                        i < p < l ==> (#[trigger] self.elements@[p]).0 != v,
                decreases n - l,
            {
                if self.elements[l].0 == v {
                    return false;
                }
                l = l + 1;
            }
            i = i + 1;
        }
        true
    }

    fn check_bound_valid(&self, b: Bound, pos: usize) -> (r: bool)
        requires
            pos < self.elements@.len(),
        ensures
            r == self.bound_valid_at(b, pos as int),
    {
        match b {
            Bound::Zero => true,
            Bound::One => true,
            Bound::Var(w) => {
                let n = self.elements.len();
                let mut j: usize = pos + 1;
                while j < n
                    invariant
                        n == self.elements@.len(),
                        pos < j,
                        b == Bound::Var(w),
                        forall|k: int| pos < k < j ==> (#[trigger] self.elements@[k]).0 != w,
                    decreases n - j,
                {
                    if self.elements[j].0 == w {
                        proof {
                            assert(b == Bound::Var(w));
                            assert(exists|k: int|
                                pos < k < self.elements@.len() && (#[trigger] self.elements@[k]).0
                                    == w) by {
                                assert(pos < (j as int) < self.elements@.len()
                                    && self.elements@[j as int].0 == w);
                            }
                        }
                        return true;
                    }
                    j = j + 1;
                }
                false
            },
        }
    }
}

} // verus!
