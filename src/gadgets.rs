//! Gadgets: field operations as constrained variables. Each allocates one
//! variable for its result and binds it with a single constraint.
use crate::cs::{
    constraint_holds, lc_assigned, lc_value, nums_of, term, vars_of, Constraint, ConstraintSystem,
    Num, SynthesisError,
};
use crate::field::{fadd, fmul, fr_add, fr_mul, modulus, Scalar};
use vstd::arithmetic::div_mod::lemma_small_mod;
use vstd::prelude::*;

verus! {

/// The sum of a sequence of field elements, folded from the front.
pub open spec fn sum_of(s: Seq<nat>) -> nat
    decreases s.len(),
{
    if s.len() == 0 {
        0
    } else {
        fadd(sum_of(s.drop_last()), s.last())
    }
}

/// `c` is `(sum of lhs) * one = out`.
pub open spec fn is_sum_constraint(c: Constraint, lhs: Seq<usize>, out: usize) -> bool {
    c.a@ == lhs && c.b@ == seq![0usize] && c.c@ == seq![out]
}

/// `c` is `x * y = z`.
pub open spec fn is_mul_constraint(c: Constraint, x: usize, y: usize, z: usize) -> bool {
    c.a@ == seq![x] && c.b@ == seq![y] && c.c@ == seq![z]
}

/// Every number of the list is bound in `cs`.
pub open spec fn all_bound(cs: ConstraintSystem, nums: Seq<Num>) -> bool {
    forall|i: int| 0 <= i < nums.len() ==> cs.binds(#[trigger] nums[i])
}

proof fn lemma_lc_single(vals: Seq<Option<Scalar>>, x: usize)
    requires
        x < vals.len(),
        vals[x as int] matches Some(s) && s.wf(),
    ensures
        lc_assigned(vals, seq![x]),
        lc_value(vals, seq![x]) == term(vals, x),
{
    let e = Seq::<usize>::empty();
    assert(seq![x].drop_last() =~= e);
    assert(lc_value(vals, e) == 0);
    assert(seq![x].last() == x);
    lemma_small_mod(term(vals, x), modulus());
    assert(lc_value(vals, seq![x]) == fadd(0, term(vals, x)));
}

proof fn lemma_lc_pair(vals: Seq<Option<Scalar>>, x: usize, y: usize)
    requires
        x < vals.len(),
        y < vals.len(),
        vals[x as int] matches Some(s) && s.wf(),
        vals[y as int] is Some,
    ensures
        lc_assigned(vals, seq![x, y]),
        lc_value(vals, seq![x, y]) == fadd(term(vals, x), term(vals, y)),
{
    assert(seq![x, y].drop_last() =~= seq![x]);
    lemma_lc_single(vals, x);
}

proof fn lemma_times_one(v: nat)
    requires
        v < modulus(),
    ensures
        fmul(v, 1) == v,
{
    assert(v * 1 == v) by (nonlinear_arith);
    lemma_small_mod(v, modulus());
}

/// Every number of the list carries a value.
pub open spec fn all_valued(nums: Seq<Num>) -> bool {
    forall|i: int| 0 <= i < nums.len() ==> (#[trigger] nums[i]).val() is Some
}

/// Over numbers bound in a system, all with values, the combination of their
/// variables has the value of their sum.
proof fn lemma_lc_of_nums(cs: ConstraintSystem, nums: Seq<Num>)
    requires
        cs.wf(),
        all_bound(cs, nums),
        all_valued(nums),
    ensures
        lc_assigned(cs.vals(), vars_of(nums)),
        lc_value(cs.vals(), vars_of(nums)) == sum_of(nums_of(nums)),
    decreases nums.len(),
{
    if nums.len() > 0 {
        let init = nums.drop_last();
        assert(all_bound(cs, init) && all_valued(init)) by {
            assert forall|i: int| 0 <= i < init.len() implies cs.binds(#[trigger] init[i]) && init[i].val() is Some by {
                assert(init[i] == nums[i]);
            }
        }
        lemma_lc_of_nums(cs, init);
        assert(vars_of(nums).drop_last() =~= vars_of(init));
        assert(nums_of(nums).drop_last() =~= nums_of(init));
        assert(cs.binds(nums[nums.len() - 1]));
        assert(nums[nums.len() - 1].val() is Some);
    }
}

/// Registers `(a + b) * 1 = sum`, whatever the values. Where all three have
/// values, the constraint holds exactly when `sum` is `a + b`.
pub fn sum(cs: &mut ConstraintSystem, a: &Num, b: &Num, sum: &Num)
    requires
        old(cs).wf(),
        old(cs).binds(*a),
        old(cs).binds(*b),
        old(cs).binds(*sum),
    ensures
        final(cs).wf(),
        old(cs).extends_to(final(cs)),
        final(cs).vals() == old(cs).vals(),
        final(cs).cons() == old(cs).cons().push(final(cs).cons().last()),
        is_sum_constraint(final(cs).cons().last(), seq![a.var(), b.var()], sum.var()),
        final(cs).satisfied() == (old(cs).satisfied() && constraint_holds(final(cs).vals(), final(cs).cons().last())),
        a.val() is Some && b.val() is Some && sum.val() is Some ==> (constraint_holds(
            final(cs).vals(),
            final(cs).cons().last(),
        ) <==> sum.num() == fadd(a.num(), b.num())),
{
    let mut lhs: Vec<usize> = Vec::new();
    lhs.push(a.get_variable());
    lhs.push(b.get_variable());
    let mut one: Vec<usize> = Vec::new();
    one.push(cs.one());
    let mut out: Vec<usize> = Vec::new();
    out.push(sum.get_variable());
    let c = Constraint { a: lhs, b: one, c: out };
    assert(c.a@ =~= seq![a.var(), b.var()]);
    assert(c.b@ =~= seq![0usize]);
    assert(c.c@ =~= seq![sum.var()]);
    proof {
        let vals = cs.vals();
        if a.val() is Some && b.val() is Some && sum.val() is Some {
            lemma_lc_pair(vals, a.var(), b.var());
            lemma_lc_single(vals, 0);
            lemma_lc_single(vals, sum.var());
            lemma_times_one(lc_value(vals, c.a@));
        }
    }
    cs.enforce(c);
}

/// Registers `(nums[0] + ... + nums[n - 1]) * 1 = sum`, whatever the values.
/// Where all have values, the constraint holds exactly when `sum` is the total.
pub fn multi_sum(cs: &mut ConstraintSystem, nums: &[Num], sum: &Num)
    requires
        old(cs).wf(),
        all_bound(*old(cs), nums@),
        old(cs).binds(*sum),
    ensures
        final(cs).wf(),
        old(cs).extends_to(final(cs)),
        final(cs).vals() == old(cs).vals(),
        final(cs).cons() == old(cs).cons().push(final(cs).cons().last()),
        is_sum_constraint(final(cs).cons().last(), vars_of(nums@), sum.var()),
        final(cs).satisfied() == (old(cs).satisfied() && constraint_holds(final(cs).vals(), final(cs).cons().last())),
        all_valued(nums@) && sum.val() is Some ==> (constraint_holds(final(cs).vals(), final(cs).cons().last())
            <==> sum.num() == sum_of(nums_of(nums@))),
{
    let mut lhs: Vec<usize> = Vec::new();
    let mut i: usize = 0;
    while i < nums.len()
        invariant
            0 <= i <= nums@.len(),
            lhs@ =~= vars_of(nums@.take(i as int)),
        decreases nums@.len() - i,
    {
        lhs.push(nums[i].get_variable());
        i = i + 1;
        assert(lhs@ =~= vars_of(nums@.take(i as int)));
    }
    assert(nums@.take(i as int) =~= nums@);
    let mut one: Vec<usize> = Vec::new();
    one.push(cs.one());
    let mut out: Vec<usize> = Vec::new();
    out.push(sum.get_variable());
    let c = Constraint { a: lhs, b: one, c: out };
    assert(c.b@ =~= seq![0usize]);
    assert(c.c@ =~= seq![sum.var()]);
    proof {
        let vals = cs.vals();
        assert forall|k: int| 0 <= k < c.a@.len() implies c.a@[k] < vals.len() by {
            assert(cs.binds(nums@[k]));
        }
        if all_valued(nums@) && sum.val() is Some {
            lemma_lc_of_nums(*cs, nums@);
            lemma_lc_single(vals, 0);
            lemma_lc_single(vals, sum.var());
            lemma_times_one(lc_value(vals, c.a@));
        }
    }
    cs.enforce(c);
}

/// Allocates `a + b` and binds it with one constraint. In witness mode an
/// input without a value is an error, and nothing is registered.
pub fn add(cs: &mut ConstraintSystem, a: &Num, b: &Num) -> (r: Result<Num, SynthesisError>)
    requires
        old(cs).wf(),
        old(cs).binds(*a),
        old(cs).binds(*b),
    ensures
        final(cs).wf(),
        old(cs).extends_to(final(cs)),
        r is Err <==> (old(cs).computes() && (a.val() is None || b.val() is None)),
        r is Err ==> *final(cs) == *old(cs),
        old(cs).computes() && old(cs).satisfied() ==> final(cs).satisfied(),
        r matches Ok(n) ==> {
            &&& final(cs).binds(n)
            &&& n.var() == old(cs).vals().len()
            &&& final(cs).vals() == old(cs).vals().push(n.val())
            &&& final(cs).cons() == old(cs).cons().push(final(cs).cons().last())
            &&& is_sum_constraint(final(cs).cons().last(), seq![a.var(), b.var()], n.var())
            &&& (n.val() is Some <==> old(cs).computes())
            &&& old(cs).computes() ==> n.num() == fadd(a.num(), b.num())
        },
{
    let value = if cs.is_witness_mode() {
        match (a.get_value(), b.get_value()) {
            (Some(x), Some(y)) => Some(fr_add(&x, &y)),
            _ => {
                return Err(SynthesisError::AssignmentMissing);
            },
        }
    } else {
        None
    };
    let ghost c0 = *cs;
    let res = cs.alloc_num(value);
    assert(cs.vals()[a.var() as int] == c0.vals()[a.var() as int]);
    assert(cs.vals()[b.var() as int] == c0.vals()[b.var() as int]);
    sum(cs, a, b, &res);
    Ok(res)
}

/// Allocates the sum of `nums` and binds it with one constraint, whatever the
/// number of terms. In witness mode a term without a value is an error, and
/// nothing is registered.
pub fn multi_add(cs: &mut ConstraintSystem, nums: &[Num]) -> (r: Result<Num, SynthesisError>)
    requires
        old(cs).wf(),
        all_bound(*old(cs), nums@),
    ensures
        final(cs).wf(),
        old(cs).extends_to(final(cs)),
        r is Err <==> (old(cs).computes() && !all_valued(nums@)),
        r is Err ==> *final(cs) == *old(cs),
        old(cs).computes() && old(cs).satisfied() ==> final(cs).satisfied(),
        r matches Ok(n) ==> {
            &&& final(cs).binds(n)
            &&& n.var() == old(cs).vals().len()
            &&& final(cs).vals() == old(cs).vals().push(n.val())
            &&& final(cs).cons() == old(cs).cons().push(final(cs).cons().last())
            &&& is_sum_constraint(final(cs).cons().last(), vars_of(nums@), n.var())
            &&& (n.val() is Some <==> old(cs).computes())
            &&& old(cs).computes() ==> n.num() == sum_of(nums_of(nums@))
        },
{
    let value = if cs.is_witness_mode() {
        let mut acc = Scalar::zero();
        let mut i: usize = 0;
        while i < nums.len()
            invariant
                cs.wf(),
                cs.computes(),
                *cs == *old(cs),
                all_bound(*cs, nums@),
                0 <= i <= nums@.len(),
                acc.wf(),
                all_valued(nums@.take(i as int)),
                acc.value() == sum_of(nums_of(nums@.take(i as int))),
            decreases nums@.len() - i,
        {
            assert(cs.binds(nums@[i as int]));
            match nums[i].get_value() {
                Some(x) => {
                    acc = fr_add(&acc, &x);
                },
                None => {
                    assert(nums@[i as int].val() is None);
                    assert(!all_valued(nums@));
                    return Err(SynthesisError::AssignmentMissing);
                },
            }
            assert(nums_of(nums@.take(i + 1)).drop_last() =~= nums_of(nums@.take(i as int)));
            assert forall|k: int| 0 <= k < i + 1 implies (#[trigger] nums@.take(i + 1)[k]).val() is Some by {
                if k < i {
                    assert(nums@.take(i + 1)[k] == nums@.take(i as int)[k]);
                }
            }
            i = i + 1;
        }
        assert(nums@.take(i as int) =~= nums@);
        Some(acc)
    } else {
        None
    };
    let ghost pre = *cs;
    let res = cs.alloc_num(value);
    assert(all_bound(*cs, nums@)) by {
        assert forall|k: int| 0 <= k < nums@.len() implies cs.binds(#[trigger] nums@[k]) by {
            assert(pre.binds(nums@[k]));
            assert(cs.vals()[nums@[k].var() as int] == pre.vals()[nums@[k].var() as int]);
        }
    }
    multi_sum(cs, nums, &res);
    Ok(res)
}

/// Registers `x * y = z`.
fn enforce_product(cs: &mut ConstraintSystem, x: &Num, y: &Num, z: &Num)
    requires
        old(cs).wf(),
        old(cs).binds(*x),
        old(cs).binds(*y),
        old(cs).binds(*z),
    ensures
        final(cs).wf(),
        old(cs).extends_to(final(cs)),
        final(cs).vals() == old(cs).vals(),
        final(cs).cons() == old(cs).cons().push(final(cs).cons().last()),
        is_mul_constraint(final(cs).cons().last(), x.var(), y.var(), z.var()),
        final(cs).satisfied() == (old(cs).satisfied() && constraint_holds(final(cs).vals(), final(cs).cons().last())),
        x.val() is Some && y.val() is Some && z.val() is Some ==> (constraint_holds(
            final(cs).vals(),
            final(cs).cons().last(),
        ) <==> z.num() == fmul(x.num(), y.num())),
{
    let mut a: Vec<usize> = Vec::new();
    a.push(x.get_variable());
    let mut b: Vec<usize> = Vec::new();
    b.push(y.get_variable());
    let mut c: Vec<usize> = Vec::new();
    c.push(z.get_variable());
    let k = Constraint { a, b, c };
    assert(k.a@ =~= seq![x.var()]);
    assert(k.b@ =~= seq![y.var()]);
    assert(k.c@ =~= seq![z.var()]);
    proof {
        if x.val() is Some && y.val() is Some && z.val() is Some {
            lemma_lc_single(cs.vals(), x.var());
            lemma_lc_single(cs.vals(), y.var());
            lemma_lc_single(cs.vals(), z.var());
        }
    }
    cs.enforce(k);
}

impl Num {
    /// Allocates `self * other` and binds it with one multiplicative
    /// constraint. In witness mode an input without a value is an error, and
    /// nothing is registered.
    pub fn mul(&self, cs: &mut ConstraintSystem, other: &Num) -> (r: Result<Num, SynthesisError>)
        requires
            old(cs).wf(),
            old(cs).binds(*self),
            old(cs).binds(*other),
        ensures
            final(cs).wf(),
            old(cs).extends_to(final(cs)),
            r is Err <==> (old(cs).computes() && (self.val() is None || other.val() is None)),
            r is Err ==> *final(cs) == *old(cs),
            old(cs).computes() && old(cs).satisfied() ==> final(cs).satisfied(),
            r matches Ok(n) ==> {
                &&& final(cs).binds(n)
                &&& n.var() == old(cs).vals().len()
                &&& final(cs).vals() == old(cs).vals().push(n.val())
                &&& final(cs).cons() == old(cs).cons().push(final(cs).cons().last())
                &&& is_mul_constraint(final(cs).cons().last(), self.var(), other.var(), n.var())
                &&& (n.val() is Some <==> old(cs).computes())
                &&& old(cs).computes() ==> n.num() == fmul(self.num(), other.num())
            },
    {
        let value = if cs.is_witness_mode() {
            match (self.get_value(), other.get_value()) {
                (Some(x), Some(y)) => Some(fr_mul(&x, &y)),
                _ => {
                    return Err(SynthesisError::AssignmentMissing);
                },
            }
        } else {
            None
        };
        let ghost c0 = *cs;
        let res = cs.alloc_num(value);
        assert(cs.vals()[self.var() as int] == c0.vals()[self.var() as int]);
        assert(cs.vals()[other.var() as int] == c0.vals()[other.var() as int]);
        enforce_product(cs, self, other, &res);
        Ok(res)
    }

    /// Allocates `self * self` and binds it with one multiplicative
    /// constraint. In witness mode a missing value is an error.
    pub fn square(&self, cs: &mut ConstraintSystem) -> (r: Result<Num, SynthesisError>)
        requires
            old(cs).wf(),
            old(cs).binds(*self),
        ensures
            final(cs).wf(),
            old(cs).extends_to(final(cs)),
            r is Err <==> (old(cs).computes() && self.val() is None),
            r is Err ==> *final(cs) == *old(cs),
            old(cs).computes() && old(cs).satisfied() ==> final(cs).satisfied(),
            r matches Ok(n) ==> {
                &&& final(cs).binds(n)
                &&& n.var() == old(cs).vals().len()
                &&& final(cs).vals() == old(cs).vals().push(n.val())
                &&& final(cs).cons() == old(cs).cons().push(final(cs).cons().last())
                &&& is_mul_constraint(final(cs).cons().last(), self.var(), self.var(), n.var())
                &&& (n.val() is Some <==> old(cs).computes())
                &&& old(cs).computes() ==> n.num() == fmul(self.num(), self.num())
            },
    {
        self.mul(cs, self)
    }
}

/// The quintic S-box, `x^5`, evaluated as `(x^2)^2 * x`.
pub open spec fn sbox(x: nat) -> nat {
    fmul(fmul(fmul(x, x), fmul(x, x)), x)
}

/// `cs` holds at `k` the three constraints of an S-box on variable `x`
/// whose fresh variables start at `v`: `x*x = v`, `v*v = v+1`, `(v+1)*x = v+2`.
pub open spec fn is_sbox_at(cs: ConstraintSystem, k: int, x: usize, v: usize) -> bool {
    &&& is_mul_constraint(cs.cons()[k], x, x, v)
    &&& is_mul_constraint(cs.cons()[k + 1], v, v, (v + 1) as usize)
    &&& is_mul_constraint(cs.cons()[k + 2], (v + 1) as usize, x, (v + 2) as usize)
}

/// Allocates `l^5` as `l^2`, `l^4`, `l^5`: three multiplicative constraints,
/// whatever the field or the width. In witness mode a missing value is an
/// error, and nothing is registered.
pub fn quintic_s_box(cs: &mut ConstraintSystem, l: &Num) -> (r: Result<Num, SynthesisError>)
    requires
        old(cs).wf(),
        old(cs).binds(*l),
    ensures
        final(cs).wf(),
        old(cs).extends_to(final(cs)),
        r is Err <==> (old(cs).computes() && l.val() is None),
        r is Err ==> *final(cs) == *old(cs),
        old(cs).computes() && old(cs).satisfied() ==> final(cs).satisfied(),
        r matches Ok(n) ==> {
            let v = old(cs).vals().len() as int;
            let k = old(cs).cons().len() as int;
            &&& final(cs).binds(n)
            &&& n.var() == v + 2
            &&& final(cs).vals().len() == v + 3
            &&& final(cs).cons().len() == k + 3
            &&& is_sbox_at(*final(cs), k, l.var(), v as usize)
            &&& (n.val() is Some <==> old(cs).computes())
            &&& old(cs).computes() ==> n.num() == sbox(l.num())
        },
{
    let ghost c0 = *cs;
    let l2 = match l.square(cs) {
        Ok(n) => n,
        Err(e) => {
            return Err(e);
        },
    };
    let ghost c1 = *cs;
    let l4 = match l2.square(cs) {
        Ok(n) => n,
        Err(e) => {
            return Err(e);
        },
    };
    let ghost c2 = *cs;
    assert(c1.binds(*l)) by {
        assert(c1.vals()[l.var() as int] == c0.vals()[l.var() as int]);
    }
    assert(c2.binds(*l)) by {
        assert(c2.vals()[l.var() as int] == c1.vals()[l.var() as int]);
    }
    let l5 = l4.mul(cs, l);
    proof {
        let k = c0.cons().len() as int;
        assert(cs.cons()[k] == c1.cons()[k]);
        assert(cs.cons()[k + 1] == c2.cons()[k + 1]);
    }
    l5
}

} // verus!
