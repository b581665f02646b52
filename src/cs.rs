//! A rank-1 constraint system over the BLS12-381 scalar field: it hands out
//! variables with optional witness values and records constraints of the form
//! `(sum a) * (sum b) = (sum c)`, every term with coefficient one.
use crate::field::{fadd, fmul, fr_add, fr_eq, fr_mul, Scalar};
use vstd::prelude::*;

verus! {

/// Raised while building a circuit.
#[derive(Clone, Copy, Debug, PartialEq, Eq)]
pub enum SynthesisError {
    /// A witness value was needed, but an input of the computation had none.
    AssignmentMissing,
}

/// A linear combination as a list of variable indices, each with coefficient
/// one, and a constraint `a * b = c` over three of them.
#[derive(Clone, Debug)]
pub struct Constraint {
    pub a: Vec<usize>,
    pub b: Vec<usize>,
    pub c: Vec<usize>,
}

/// The witness value of one term, zero where it is missing.
pub open spec fn term(vals: Seq<Option<Scalar>>, v: usize) -> nat {
    match vals[v as int] {
        Some(s) => s.value(),
        None => 0,
    }
}

/// The value of a linear combination, summed from the front in the field.
pub open spec fn lc_value(vals: Seq<Option<Scalar>>, lc: Seq<usize>) -> nat
    decreases lc.len(),
{
    if lc.len() == 0 {
        0
    } else {
        fadd(lc_value(vals, lc.drop_last()), term(vals, lc.last()))
    }
}

/// Every variable of the combination exists and carries a value.
pub open spec fn lc_assigned(vals: Seq<Option<Scalar>>, lc: Seq<usize>) -> bool {
    forall|i: int| 0 <= i < lc.len() ==> lc[i] < vals.len() && vals[lc[i] as int] is Some
}

/// Every variable of the combination exists.
pub open spec fn lc_in_range(n: nat, lc: Seq<usize>) -> bool {
    forall|i: int| 0 <= i < lc.len() ==> lc[i] < n
}

/// A constraint holds under the assignment `vals`.
pub open spec fn constraint_holds(vals: Seq<Option<Scalar>>, c: Constraint) -> bool {
    &&& lc_assigned(vals, c.a@)
    &&& lc_assigned(vals, c.b@)
    &&& lc_assigned(vals, c.c@)
    &&& fmul(lc_value(vals, c.a@), lc_value(vals, c.b@)) == lc_value(vals, c.c@)
}

/// All variables of a constraint exist.
pub open spec fn constraint_in_range(n: nat, c: Constraint) -> bool {
    lc_in_range(n, c.a@) && lc_in_range(n, c.b@) && lc_in_range(n, c.c@)
}

/// Extending an assignment leaves the value of a combination over its
/// variables unchanged.
pub proof fn lemma_lc_value_extend(v1: Seq<Option<Scalar>>, v2: Seq<Option<Scalar>>, lc: Seq<usize>)
    requires
        v1.len() <= v2.len(),
        forall|i: int| 0 <= i < v1.len() ==> v2[i] == v1[i],
        lc_in_range(v1.len(), lc),
    ensures
        lc_value(v2, lc) == lc_value(v1, lc),
        lc_assigned(v1, lc) ==> lc_assigned(v2, lc),
    decreases lc.len(),
{
    if lc.len() > 0 {
        lemma_lc_value_extend(v1, v2, lc.drop_last());
    }
}

/// Extending an assignment keeps every constraint over its variables holding.
pub proof fn lemma_constraint_extend(v1: Seq<Option<Scalar>>, v2: Seq<Option<Scalar>>, c: Constraint)
    requires
        v1.len() <= v2.len(),
        forall|i: int| 0 <= i < v1.len() ==> v2[i] == v1[i],
        constraint_in_range(v1.len(), c),
        constraint_holds(v1, c),
    ensures
        constraint_holds(v2, c),
{
    lemma_lc_value_extend(v1, v2, c.a@);
    lemma_lc_value_extend(v1, v2, c.b@);
    lemma_lc_value_extend(v1, v2, c.c@);
}

/// A variable of a constraint system, with the witness value it was given.
#[derive(Clone, Copy, Debug)]
pub struct Num {
    var: usize,
    value: Option<Scalar>,
}

impl Num {
    /// Index of the variable.
    pub closed spec fn var(&self) -> usize {
        self.var
    }

    /// The witness value, if one was computed.
    pub closed spec fn val(&self) -> Option<Scalar> {
        self.value
    }

    /// The witness value as a number, zero where there is none.
    pub open spec fn num(&self) -> nat {
        match self.val() {
            Some(s) => s.value(),
            None => 0,
        }
    }

    pub fn get_variable(&self) -> (r: usize)
        ensures
            r == self.var(),
    {
        self.var
    }

    pub fn get_value(&self) -> (r: Option<Scalar>)
        ensures
            r == self.val(),
    {
        self.value
    }
}

/// The variables of a list of numbers.
pub open spec fn vars_of(nums: Seq<Num>) -> Seq<usize> {
    nums.map_values(|n: Num| n.var())
}

/// The witness values of a list of numbers, as field elements.
pub open spec fn nums_of(nums: Seq<Num>) -> Seq<nat> {
    nums.map_values(|n: Num| n.num())
}

/// Records variables and constraints. In witness mode variables carry the
/// values they were given and gadgets compute theirs; in shape-only mode no
/// value is kept or computed.
#[derive(Clone, Debug)]
pub struct ConstraintSystem {
    witness: bool,
    values: Vec<Option<Scalar>>,
    constraints: Vec<Constraint>,
}

impl ConstraintSystem {
    /// Whether witness values are computed.
    pub closed spec fn computes(&self) -> bool {
        self.witness
    }

    /// The assignment: one entry per variable, index 0 being the constant one.
    pub closed spec fn vals(&self) -> Seq<Option<Scalar>> {
        self.values@
    }

    /// The constraints registered so far, in order.
    pub closed spec fn cons(&self) -> Seq<Constraint> {
        self.constraints@
    }

    /// Every registered constraint holds under the assignment.
    pub open spec fn satisfied(&self) -> bool {
        forall|i: int| 0 <= i < self.cons().len() ==> constraint_holds(self.vals(), #[trigger] self.cons()[i])
    }

    pub open spec fn wf(&self) -> bool {
        &&& self.vals().len() >= 1
        &&& self.vals()[0] matches Some(s) && s.value() == 1
        &&& forall|i: int| 0 <= i < self.vals().len() ==> (#[trigger] self.vals()[i] matches Some(s) ==> s.wf())
        &&& forall|i: int| 0 <= i < self.cons().len() ==> constraint_in_range(self.vals().len(), #[trigger] self.cons()[i])
        &&& !self.computes() ==> forall|i: int| 1 <= i < self.vals().len() ==> #[trigger] self.vals()[i] is None
    }

    /// `n` is an allocated variable of this system (not the constant one)
    /// and carries the value the assignment holds for it, if any.
    pub open spec fn binds(&self, n: Num) -> bool {
        &&& 1 <= n.var() < self.vals().len()
        &&& self.vals()[n.var() as int] == n.val()
        &&& n.val() matches Some(s) ==> s.wf()
    }

    /// `after` grew from `self` by appending variables and constraints only.
    pub open spec fn extends_to(&self, after: &ConstraintSystem) -> bool {
        &&& after.computes() == self.computes()
        &&& self.vals().len() <= after.vals().len()
        &&& forall|i: int| 0 <= i < self.vals().len() ==> after.vals()[i] == #[trigger] self.vals()[i]
        &&& self.cons().len() <= after.cons().len()
        &&& forall|i: int| 0 <= i < self.cons().len() ==> after.cons()[i] == #[trigger] self.cons()[i]
    }

    /// A system grown from a well-formed one by appending variables with
    /// values in range, without new constraints, is well-formed, and stays
    /// satisfied where it was.
    proof fn lemma_extend_wf(pre: ConstraintSystem, post: ConstraintSystem)
        requires
            pre.wf(),
            pre.extends_to(&post),
            post.cons() == pre.cons(),
            forall|i: int| pre.vals().len() <= i < post.vals().len() ==> (#[trigger] post.vals()[i] matches Some(s) ==> s.wf()),
            !post.computes() ==> forall|i: int| pre.vals().len() <= i < post.vals().len() ==> #[trigger] post.vals()[i] is None,
        ensures
            post.wf(),
            pre.satisfied() ==> post.satisfied(),
    {
        assert(post.vals()[0] == pre.vals()[0]);
        assert forall|i: int| 0 <= i < post.cons().len() implies constraint_in_range(post.vals().len(), #[trigger] post.cons()[i]) by {
            assert(pre.cons()[i] == post.cons()[i]);
        }
        if pre.satisfied() {
            assert forall|i: int| 0 <= i < post.cons().len() implies constraint_holds(post.vals(), #[trigger] post.cons()[i]) by {
                assert(pre.cons()[i] == post.cons()[i]);
                lemma_constraint_extend(pre.vals(), post.vals(), post.cons()[i]);
            }
        }
        assert forall|i: int| 0 <= i < post.vals().len() implies (#[trigger] post.vals()[i] matches Some(s) ==> s.wf()) by {
            if i < pre.vals().len() {
                assert(pre.vals()[i] == post.vals()[i]);
            }
        }
        if !post.computes() {
            assert forall|i: int| 1 <= i < post.vals().len() implies #[trigger] post.vals()[i] is None by {
                if i < pre.vals().len() {
                    assert(pre.vals()[i] == post.vals()[i]);
                }
            }
        }
    }

    /// A system that computes a witness value for every variable.
    pub fn new() -> (r: ConstraintSystem)
        ensures
            r.wf(),
            r.computes(),
            r.vals().len() == 1,
            r.cons().len() == 0,
    {
        let mut values: Vec<Option<Scalar>> = Vec::new();
        values.push(Some(Scalar::one()));
        ConstraintSystem { witness: true, values, constraints: Vec::new() }
    }

    /// A system that records the circuit's shape only, computing no value.
    pub fn new_shape_only() -> (r: ConstraintSystem)
        ensures
            r.wf(),
            !r.computes(),
            r.vals().len() == 1,
            r.cons().len() == 0,
    {
        let mut values: Vec<Option<Scalar>> = Vec::new();
        values.push(Some(Scalar::one()));
        ConstraintSystem { witness: false, values, constraints: Vec::new() }
    }

    /// Whether witness values are computed.
    pub fn is_witness_mode(&self) -> (r: bool)
        ensures
            r == self.computes(),
    {
        self.witness
    }

    /// The variable that always holds one.
    pub fn one(&self) -> (r: usize)
        ensures
            r == 0,
    {
        0
    }

    pub fn num_constraints(&self) -> (r: usize)
        ensures
            r == self.cons().len(),
    {
        self.constraints.len()
    }

    pub fn num_variables(&self) -> (r: usize)
        ensures
            r == self.vals().len(),
    {
        self.values.len()
    }

    /// The witness value of variable `i`.
    pub fn value(&self, i: usize) -> (r: Option<Scalar>)
        requires
            i < self.vals().len(),
        ensures
            r == self.vals()[i as int],
    {
        self.values[i]
    }

    /// The `i`-th registered constraint.
    pub fn constraint(&self, i: usize) -> (r: &Constraint)
        requires
            i < self.cons().len(),
        ensures
            *r == self.cons()[i as int],
    {
        &self.constraints[i]
    }

    /// Allocates a variable. In witness mode it carries `value`, which may
    /// be missing; in shape-only mode it carries none.
    pub fn alloc_num(&mut self, value: Option<Scalar>) -> (n: Num)
        requires
            old(self).wf(),
            value matches Some(s) ==> s.wf(),
        ensures
            final(self).wf(),
            old(self).extends_to(final(self)),
            final(self).cons() == old(self).cons(),
            final(self).vals() == old(self).vals().push(n.val()),
            n.var() == old(self).vals().len(),
            final(self).binds(n),
            n.val() == (if old(self).computes() { value } else { None }),
            old(self).satisfied() ==> final(self).satisfied(),
    {
        let v = if self.witness { value } else { None };
        let var = self.values.len();
        self.values.push(v);
        let ghost pre = *old(self);
        proof {
            Self::lemma_extend_wf(pre, *self);
        }
        Num { var, value: v }
    }

    /// Registers the constraint `c`, whether or not it holds.
    pub fn enforce(&mut self, c: Constraint)
        requires
            old(self).wf(),
            constraint_in_range(old(self).vals().len(), c),
        ensures
            final(self).wf(),
            old(self).extends_to(final(self)),
            final(self).vals() == old(self).vals(),
            final(self).cons() == old(self).cons().push(c),
            final(self).satisfied() == (old(self).satisfied() && constraint_holds(old(self).vals(), c)),
    {
        self.constraints.push(c);
        let ghost pre = *old(self);
        assert forall|i: int| 0 <= i < self.cons().len() implies constraint_in_range(self.vals().len(), #[trigger] self.cons()[i]) by {
            if i < pre.cons().len() {
                assert(pre.cons()[i] == self.cons()[i]);
            }
        }
        proof {
        if pre.satisfied() && constraint_holds(pre.vals(), c) {
            assert forall|i: int| 0 <= i < self.cons().len() implies constraint_holds(self.vals(), #[trigger] self.cons()[i]) by {
                if i < pre.cons().len() {
                    assert(pre.cons()[i] == self.cons()[i]);
                }
            }
        }
        if self.satisfied() {
            assert(constraint_holds(self.vals(), self.cons()[pre.cons().len() as int]));
            assert forall|i: int| 0 <= i < pre.cons().len() implies constraint_holds(pre.vals(), #[trigger] pre.cons()[i]) by {
                assert(pre.cons()[i] == self.cons()[i]);
            }
        }
        }
    }

    /// The value of a linear combination under the assignment; `None` where a
    /// variable is missing or has no value.
    pub fn eval_lc(&self, lc: &Vec<usize>) -> (r: Option<Scalar>)
        requires
            self.wf(),
        ensures
            r is Some <==> lc_assigned(self.vals(), lc@),
            r matches Some(s) ==> s.wf() && s.value() == lc_value(self.vals(), lc@),
    {
        let mut acc = Scalar::zero();
        let mut i: usize = 0;
        while i < lc.len()
            invariant
                self.wf(),
                0 <= i <= lc@.len(),
                acc.wf(),
                acc.value() == lc_value(self.vals(), lc@.take(i as int)),
                lc_assigned(self.vals(), lc@.take(i as int)),
            decreases lc@.len() - i,
        {
            let v = lc[i];
            if v >= self.values.len() {
                assert(!lc_assigned(self.vals(), lc@));
                return None;
            }
            match self.values[v] {
                None => {
                    assert(!lc_assigned(self.vals(), lc@));
                    return None;
                },
                Some(s) => {
                    assert(self.vals()[v as int] matches Some(t) ==> t.wf());
                    acc = fr_add(&acc, &s);
                    assert(lc@.take(i + 1).drop_last() =~= lc@.take(i as int));
                    assert(lc@.take(i + 1).last() == v);
                    i = i + 1;
                },
            }
        }
        assert(lc@.take(i as int) =~= lc@);
        Some(acc)
    }

    /// Whether every registered constraint holds under the assignment.
    pub fn is_satisfied(&self) -> (r: bool)
        requires
            self.wf(),
        ensures
            r == self.satisfied(),
    {
        let mut i: usize = 0;
        while i < self.constraints.len()
            invariant
                self.wf(),
                0 <= i <= self.cons().len(),
                forall|j: int| 0 <= j < i ==> constraint_holds(self.vals(), #[trigger] self.cons()[j]),
            decreases self.cons().len() - i,
        {
            let c = &self.constraints[i];
            let a = self.eval_lc(&c.a);
            let b = self.eval_lc(&c.b);
            let cc = self.eval_lc(&c.c);
            match (a, b, cc) {
                (Some(a), Some(b), Some(cc)) => {
                    let p = fr_mul(&a, &b);
                    if !fr_eq(&p, &cc) {
                        return false;
                    }
                },
                _ => {
                    return false;
                },
            }
            i = i + 1;
        }
        true
    }
}

} // verus!
