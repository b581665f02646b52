//! The Poseidon permutation as a circuit: round scheduling, round-constant
//! consumption, S-boxes and the MDS diffusion layer.
use crate::cs::{nums_of, vars_of, ConstraintSystem, Num, SynthesisError};
use crate::field::{fadd, fmul, Scalar};
use crate::gadgets::{
    add, all_bound, all_valued, is_mul_constraint, is_sbox_at, is_sum_constraint, multi_add, quintic_s_box, sbox, sum_of,
};
use vstd::prelude::*;

verus! {

/// Adds `rc[off + i]` to every slot `i`.
pub open spec fn add_rc(state: Seq<nat>, rc: Seq<nat>, off: int) -> Seq<nat> {
    Seq::new(state.len(), |i: int| fadd(state[i], rc[off + i]))
}

/// The S-box on every slot.
pub open spec fn sbox_all(state: Seq<nat>) -> Seq<nat> {
    Seq::new(state.len(), |i: int| sbox(state[i]))
}

/// The S-box on slot 0 only.
pub open spec fn sbox_first(state: Seq<nat>) -> Seq<nat> {
    state.update(0, sbox(state[0]))
}

/// One row of the matrix times the state: products summed from the front.
pub open spec fn mds_row(row: Seq<nat>, state: Seq<nat>) -> nat {
    sum_of(Seq::new(state.len(), |k: int| fmul(row[k], state[k])))
}

/// The matrix times the state.
pub open spec fn mds_apply(m: Seq<Seq<nat>>, state: Seq<nat>) -> Seq<nat> {
    Seq::new(state.len(), |j: int| mds_row(m[j], state))
}

/// Whether round `r` of the schedule is a full round.
pub open spec fn is_full_round(r: nat, full_rounds: nat, partial_rounds: nat) -> bool {
    r < full_rounds / 2 || r >= full_rounds / 2 + partial_rounds
}

/// Number of rounds that the schedule runs.
pub open spec fn num_rounds(full_rounds: nat, partial_rounds: nat) -> nat {
    2 * (full_rounds / 2) + partial_rounds
}

/// One round, full or partial, taking its constants from `off`.
pub open spec fn round(state: Seq<nat>, rc: Seq<nat>, off: int, m: Seq<Seq<nat>>, full: bool) -> Seq<nat> {
    let a = add_rc(state, rc, off);
    mds_apply(m, if full { sbox_all(a) } else { sbox_first(a) })
}

/// The state after the first `n` rounds of the schedule, the round constants
/// being read from `off0` on, `state.len()` of them per round.
pub open spec fn rounds(
    state: Seq<nat>,
    rc: Seq<nat>,
    off0: int,
    m: Seq<Seq<nat>>,
    full_rounds: nat,
    partial_rounds: nat,
    n: nat,
) -> Seq<nat>
    decreases n,
{
    if n == 0 {
        state
    } else {
        let prev = rounds(state, rc, off0, m, full_rounds, partial_rounds, (n - 1) as nat);
        round(
            prev,
            rc,
            off0 + (n - 1) * state.len(),
            m,
            is_full_round((n - 1) as nat, full_rounds, partial_rounds),
        )
    }
}

/// The whole permutation.
pub open spec fn permutation(
    state: Seq<nat>,
    rc: Seq<nat>,
    m: Seq<Seq<nat>>,
    full_rounds: nat,
    partial_rounds: nat,
) -> Seq<nat> {
    rounds(state, rc, 0, m, full_rounds, partial_rounds, num_rounds(full_rounds, partial_rounds))
}

/// Constraints of one full round: the constant additions, three per S-box,
/// and `width + 1` per row of the matrix product.
pub open spec fn full_round_cost(width: nat) -> nat {
    width + 3 * width + width * (width + 1)
}

/// Constraints of one partial round: a single S-box.
pub open spec fn partial_round_cost(width: nat) -> nat {
    width + 3 + width * (width + 1)
}

/// Constraints registered by the whole permutation.
pub open spec fn constraint_count(width: nat, full_rounds: nat, partial_rounds: nat) -> nat {
    2 * (full_rounds / 2) * full_round_cost(width) + partial_rounds * partial_round_cost(width)
}

/// Binding survives the growth of a constraint system.
pub proof fn lemma_binds_extend(c1: ConstraintSystem, c2: ConstraintSystem, n: Num)
    requires
        c1.binds(n),
        c1.extends_to(&c2),
    ensures
        c2.binds(n),
{
    assert(c2.vals()[n.var() as int] == c1.vals()[n.var() as int]);
}

/// Growth of a constraint system is transitive.
pub proof fn lemma_extends_trans(c1: ConstraintSystem, c2: ConstraintSystem, c3: ConstraintSystem)
    requires
        c1.extends_to(&c2),
        c2.extends_to(&c3),
    ensures
        c1.extends_to(&c3),
{
    assert forall|i: int| 0 <= i < c1.vals().len() implies c3.vals()[i] == #[trigger] c1.vals()[i] by {
        assert(c2.vals()[i] == c1.vals()[i]);
    }
    assert forall|i: int| 0 <= i < c1.cons().len() implies c3.cons()[i] == #[trigger] c1.cons()[i] by {
        assert(c2.cons()[i] == c1.cons()[i]);
    }
}

/// Binding of a list survives the growth of a constraint system.
pub proof fn lemma_all_bound_extend(c1: ConstraintSystem, c2: ConstraintSystem, nums: Seq<Num>)
    requires
        all_bound(c1, nums),
        c1.extends_to(&c2),
    ensures
        all_bound(c2, nums),
{
    assert forall|i: int| 0 <= i < nums.len() implies c2.binds(#[trigger] nums[i]) by {
        lemma_binds_extend(c1, c2, nums[i]);
    }
}

/// Constraint `k + i` is an addition that reads round constant `off + i`.
pub open spec fn reads_constant_at(cs: ConstraintSystem, k: int, consts: Seq<Num>, off: int, i: int) -> bool {
    &&& 0 <= k + i < cs.cons().len()
    &&& cs.cons()[k + i].a@.len() == 2
    &&& cs.cons()[k + i].a@[1] == consts[off + i].var()
}

/// Offset, from the start of a run, of the first constraint of round `r`.
pub open spec fn round_start(width: nat, full_rounds: nat, partial_rounds: nat, r: int) -> int {
    let h = (full_rounds / 2) as int;
    let p = partial_rounds as int;
    let fc = full_round_cost(width) as int;
    let pc = partial_round_cost(width) as int;
    if r <= h {
        r * fc
    } else if r <= h + p {
        h * fc + (r - h) * pc
    } else {
        h * fc + p * pc + (r - h - p) * fc
    }
}

/// In a run that started at constraint `k0` and constant `off`, slot `i` of
/// round `r` is an addition reading round constant `off + r * width + i`.
pub open spec fn round_reads(
    cs: ConstraintSystem,
    k0: int,
    consts: Seq<Num>,
    off: int,
    width: nat,
    full_rounds: nat,
    partial_rounds: nat,
    r: int,
    i: int,
) -> bool {
    reads_constant_at(cs, k0 + round_start(width, full_rounds, partial_rounds, r), consts, off + r * width, i)
}

/// In a run that started at constraint `k0` and variable `v0`, the S-boxes of
/// round `r` follow its `width` additions: in a full round slot `i` has its
/// three constraints, in a partial round slot 0 alone has them.
pub open spec fn round_sboxes(
    cs: ConstraintSystem,
    k0: int,
    v0: int,
    width: nat,
    full_rounds: nat,
    partial_rounds: nat,
    r: int,
    i: int,
) -> bool {
    let rs = round_start(width, full_rounds, partial_rounds, r);
    if is_full_round(r as nat, full_rounds, partial_rounds) {
        &&& k0 + rs + 4 * width <= cs.cons().len()
        &&& sbox_in_round(cs, k0 + rs + width, v0 + rs, v0 + rs + width, i)
    } else {
        &&& k0 + rs + width + 3 <= cs.cons().len()
        &&& i == 0 ==> is_sbox_at(cs, k0 + rs + width, (v0 + rs) as usize, (v0 + rs + width) as usize)
    }
}

/// S-box constraints of a round, once registered, stay as the system grows.
pub proof fn lemma_sboxes_kept(
    c1: ConstraintSystem,
    c2: ConstraintSystem,
    k0: int,
    v0: int,
    width: nat,
    full_rounds: nat,
    partial_rounds: nat,
    r: int,
    i: int,
)
    requires
        c1.extends_to(&c2),
        0 <= k0,
        0 <= round_start(width, full_rounds, partial_rounds, r),
        0 <= i < width,
        round_sboxes(c1, k0, v0, width, full_rounds, partial_rounds, r, i),
    ensures
        round_sboxes(c2, k0, v0, width, full_rounds, partial_rounds, r, i),
{
    let rs = round_start(width, full_rounds, partial_rounds, r);
    if is_full_round(r as nat, full_rounds, partial_rounds) {
        lemma_sbox_kept(c1, c2, k0 + rs + width + 3 * i, (v0 + rs + i) as usize, (v0 + rs + width + 3 * i) as usize);
    } else if i == 0 {
        lemma_sbox_kept(c1, c2, k0 + rs + width, (v0 + rs) as usize, (v0 + rs + width) as usize);
    }
}

/// The start of a round in each phase of the schedule.
pub proof fn lemma_round_start(width: nat, full_rounds: nat, partial_rounds: nat, r: int)
    ensures
        ({
            let h = (full_rounds / 2) as int;
            let p = partial_rounds as int;
            let fc = full_round_cost(width) as int;
            let pc = partial_round_cost(width) as int;
            let rs = round_start(width, full_rounds, partial_rounds, r);
            &&& r <= h ==> rs == r * fc
            &&& h <= r <= h + p ==> rs == h * fc + (r - h) * pc
            &&& h + p <= r ==> rs == h * fc + p * pc + (r - h - p) * fc
        }),
{
    let h = (full_rounds / 2) as int;
    let p = partial_rounds as int;
    let fc = full_round_cost(width) as int;
    let pc = partial_round_cost(width) as int;
    if r == h {
        assert((r - h) * pc == 0) by (nonlinear_arith) requires r == h;
        assert(r * fc == h * fc) by (nonlinear_arith) requires r == h;
    }
    if r == h + p {
        assert((r - h - p) * fc == 0) by (nonlinear_arith) requires r == h + p;
        assert((r - h) * pc == p * pc) by (nonlinear_arith) requires r == h + p;
        if p == 0 {
            assert(p * pc == 0);
            assert(r * fc == h * fc) by (nonlinear_arith) requires r == h;
        }
    }
}

/// A read of a round constant, once registered, stays as the system grows.
pub proof fn lemma_reads_kept(
    c1: ConstraintSystem,
    c2: ConstraintSystem,
    k0: int,
    consts: Seq<Num>,
    off: int,
    width: nat,
    full_rounds: nat,
    partial_rounds: nat,
    r: int,
    i: int,
)
    requires
        c1.extends_to(&c2),
        round_reads(c1, k0, consts, off, width, full_rounds, partial_rounds, r, i),
    ensures
        round_reads(c2, k0, consts, off, width, full_rounds, partial_rounds, r, i),
{
    let pos = k0 + round_start(width, full_rounds, partial_rounds, r) + i;
    assert(c2.cons()[pos] == c1.cons()[pos]);
}

/// The `i`-th S-box of a round is registered at constraint `k + 3 * i`, on
/// variable `x + i`, with its fresh variables from `v + 3 * i`.
pub open spec fn sbox_in_round(cs: ConstraintSystem, k: int, x: int, v: int, i: int) -> bool {
    is_sbox_at(cs, k + 3 * i, (x + i) as usize, (v + 3 * i) as usize)
}

/// Registered S-box constraints stay as the system grows.
pub proof fn lemma_sbox_kept(c1: ConstraintSystem, c2: ConstraintSystem, k: int, x: usize, v: usize)
    requires
        c1.extends_to(&c2),
        0 <= k,
        k + 2 < c1.cons().len(),
        is_sbox_at(c1, k, x, v),
    ensures
        is_sbox_at(c2, k, x, v),
{
    assert(c2.cons()[k] == c1.cons()[k]);
    assert(c2.cons()[k + 1] == c1.cons()[k + 1]);
    assert(c2.cons()[k + 2] == c1.cons()[k + 2]);
}

/// The permutation's state, with the round constants and the MDS matrix it
/// reads, as variables of one constraint system.
#[derive(Clone, Debug)]
pub struct PoseidonCircuit {
    constants_offset: usize,
    round_constants: Vec<Num>,
    width: usize,
    elements: Vec<Num>,
    full_rounds: usize,
    partial_rounds: usize,
    mds_matrix: Vec<Vec<Num>>,
}

impl PoseidonCircuit {
    pub closed spec fn offset(&self) -> nat {
        self.constants_offset as nat
    }

    pub closed spec fn width_spec(&self) -> nat {
        self.width as nat
    }

    pub closed spec fn elems(&self) -> Seq<Num> {
        self.elements@
    }

    pub closed spec fn consts(&self) -> Seq<Num> {
        self.round_constants@
    }

    pub closed spec fn matrix(&self) -> Seq<Seq<Num>> {
        Seq::new(self.mds_matrix@.len(), |j: int| self.mds_matrix@[j]@)
    }

    pub closed spec fn rf(&self) -> nat {
        self.full_rounds as nat
    }

    pub closed spec fn rp(&self) -> nat {
        self.partial_rounds as nat
    }

    /// The state's witness values.
    pub open spec fn state(&self) -> Seq<nat> {
        nums_of(self.elems())
    }

    /// The round constants' witness values.
    pub open spec fn rc(&self) -> Seq<nat> {
        nums_of(self.consts())
    }

    /// The matrix's witness values.
    pub open spec fn mds(&self) -> Seq<Seq<nat>> {
        Seq::new(self.matrix().len(), |j: int| nums_of(self.matrix()[j]))
    }

    /// The shape: a state of `width` slots, at least two, and a square
    /// matrix of that width.
    pub open spec fn wf(&self) -> bool {
        &&& self.elems().len() == self.width_spec()
        &&& self.width_spec() >= 2
        &&& self.matrix().len() == self.width_spec()
        &&& forall|j: int| 0 <= j < self.width_spec() ==> (#[trigger] self.matrix()[j]).len() == self.width_spec()
        &&& self.offset() <= self.consts().len()
    }

    /// Every variable of the circuit is bound in `cs`.
    pub open spec fn bound_in(&self, cs: ConstraintSystem) -> bool {
        &&& all_bound(cs, self.elems())
        &&& all_bound(cs, self.consts())
        &&& forall|j: int| 0 <= j < self.matrix().len() ==> all_bound(cs, #[trigger] self.matrix()[j])
    }

    /// `after` differs from `self` in its state and cursor only.
    pub open spec fn same_params(&self, after: &PoseidonCircuit) -> bool {
        &&& after.width_spec() == self.width_spec()
        &&& after.consts() == self.consts()
        &&& after.matrix() == self.matrix()
        &&& after.rf() == self.rf()
        &&& after.rp() == self.rp()
    }

    /// Every entry of the matrix carries a value.
    pub open spec fn matrix_valued(&self) -> bool {
        forall|j: int| 0 <= j < self.matrix().len() ==> all_valued(#[trigger] self.matrix()[j])
    }

    /// The round constants from `from` up to `to` carry values.
    pub open spec fn consts_valued(&self, from: int, to: int) -> bool {
        forall|i: int| from <= i < to ==> (#[trigger] self.consts()[i]).val() is Some
    }

    /// The state, the matrix and the round constants up to `end` carry
    /// values: what a run that reads the constants up to `end` needs.
    pub open spec fn valued_up_to(&self, end: nat) -> bool {
        all_valued(self.elems()) && self.matrix_valued() && self.consts_valued(self.offset() as int, end as int)
    }

    proof fn lemma_bound_extend(&self, c1: ConstraintSystem, c2: ConstraintSystem)
        requires
            self.bound_in(c1),
            c1.extends_to(&c2),
        ensures
            self.bound_in(c2),
    {
        lemma_all_bound_extend(c1, c2, self.elems());
        lemma_all_bound_extend(c1, c2, self.consts());
        assert forall|j: int| 0 <= j < self.matrix().len() implies all_bound(c2, #[trigger] self.matrix()[j]) by {
            lemma_all_bound_extend(c1, c2, self.matrix()[j]);
        }
    }

    /// A hasher over the initial state `elements` (tag slot first), reading
    /// constants from the start of `round_constants`.
    pub fn new(
        elements: Vec<Num>,
        matrix: Vec<Vec<Num>>,
        round_constants: Vec<Num>,
        full_rounds: usize,
        partial_rounds: usize,
    ) -> (r: PoseidonCircuit)
        requires
            elements@.len() >= 2,
            matrix@.len() == elements@.len(),
            forall|j: int| 0 <= j < matrix@.len() ==> (#[trigger] matrix@[j])@.len() == elements@.len(),
        ensures
            r.wf(),
            r.offset() == 0,
            r.width_spec() == elements@.len(),
            r.elems() == elements@,
            r.consts() == round_constants@,
            r.matrix() == Seq::new(matrix@.len(), |j: int| matrix@[j]@),
            r.rf() == full_rounds,
            r.rp() == partial_rounds,
    {
        let width = elements.len();
        PoseidonCircuit {
            constants_offset: 0,
            round_constants,
            width,
            elements,
            full_rounds,
            partial_rounds,
            mds_matrix: matrix,
        }
    }

    /// The offset of the next round constant to be read.
    pub fn constants_offset(&self) -> (r: usize)
        ensures
            r == self.offset(),
    {
        self.constants_offset
    }

    /// The state's variables.
    pub fn elements(&self) -> (r: &Vec<Num>)
        ensures
            r@ == self.elems(),
    {
        &self.elements
    }

    /// Replaces the state by the MDS matrix times the state: per row, `width`
    /// products and one sum binding them.
    fn product_mds(&mut self, cs: &mut ConstraintSystem) -> (r: Result<(), SynthesisError>)
        requires
            old(self).wf(),
            old(cs).wf(),
            old(self).bound_in(*old(cs)),
            old(cs).computes() ==> all_valued(old(self).elems()) && old(self).matrix_valued(),
        ensures
            r is Ok,
            old(cs).computes() ==> all_valued(final(self).elems()),
            old(cs).computes() && old(cs).satisfied() ==> final(cs).satisfied(),
            final(self).wf(),
            old(self).same_params(final(self)),
            final(self).offset() == old(self).offset(),
            final(cs).wf(),
            old(cs).extends_to(final(cs)),
            final(self).bound_in(*final(cs)),
            final(cs).cons().len() == old(cs).cons().len() + old(self).width_spec() * (old(self).width_spec() + 1),
            final(cs).vals().len() == old(cs).vals().len() + old(self).width_spec() * (old(self).width_spec() + 1),
            forall|j: int, k: int| 0 <= j < old(self).width_spec() && 0 <= k < old(self).width_spec() ==> is_mul_constraint(
                final(cs).cons()[old(cs).cons().len() + j * (old(self).width_spec() + 1) + k],
                (#[trigger] old(self).matrix()[j][k]).var(),
                old(self).elems()[k].var(),
                (old(cs).vals().len() + j * (old(self).width_spec() + 1) + k) as usize,
            ),
            forall|j: int| 0 <= j < old(self).width_spec() ==> (#[trigger] final(self).elems()[j]).var()
                == old(cs).vals().len() + j * (old(self).width_spec() + 1) + old(self).width_spec(),
            forall|j: int| 0 <= j < old(self).width_spec() ==> is_sum_constraint(
                final(cs).cons()[old(cs).cons().len() + j * (old(self).width_spec() + 1) + old(self).width_spec()],
                Seq::new(old(self).width_spec(), |k: int| (old(cs).vals().len() + j * (old(self).width_spec() + 1) + k) as usize),
                (#[trigger] final(self).elems()[j]).var(),
            ),
            old(cs).computes() ==> final(self).state() == mds_apply(old(self).mds(), old(self).state()),
    {
        let ghost c0 = *cs;
        let ghost w = self.width as int;
        let mut result: Vec<Num> = Vec::new();
        let mut j: usize = 0;
        while j < self.width
            invariant
                *self == *old(self),
                self.wf(),
                cs.wf(),
                c0.extends_to(cs),
                self.bound_in(*cs),
                all_bound(*cs, result@),
                w == self.width_spec(),
                0 <= j <= w,
                result@.len() == j,
                cs.cons().len() == c0.cons().len() + j * (w + 1),
                cs.vals().len() == c0.vals().len() + j * (w + 1),
                forall|jj: int, k: int| 0 <= jj < j && 0 <= k < w ==> is_mul_constraint(
                    cs.cons()[c0.cons().len() + jj * (w + 1) + k],
                    (#[trigger] self.matrix()[jj][k]).var(),
                    self.elems()[k].var(),
                    (c0.vals().len() + jj * (w + 1) + k) as usize,
                ),
                forall|jj: int| 0 <= jj < j ==> (#[trigger] result@[jj]).var() == c0.vals().len() + jj * (w + 1) + w,
                forall|jj: int| 0 <= jj < j ==> is_sum_constraint(
                    cs.cons()[c0.cons().len() + jj * (w + 1) + w],
                    Seq::new(w as nat, |k: int| (c0.vals().len() + jj * (w + 1) + k) as usize),
                    (#[trigger] result@[jj]).var(),
                ),
                c0.computes() ==> all_valued(result@),
                c0.computes() ==> all_valued(self.elems()) && self.matrix_valued(),
                c0.computes() && c0.satisfied() ==> cs.satisfied(),
                c0.computes() ==> forall|i: int| 0 <= i < j ==> (#[trigger] result@[i]).num() == mds_row(self.mds()[i], self.state()),
            decreases w - j,
        {
            let ghost cj = *cs;
            let mut to_add: Vec<Num> = Vec::new();
            let mut k: usize = 0;
            assert(self.matrix()[j as int] == self.mds_matrix@[j as int]@);
            while k < self.width
                invariant
                    *self == *old(self),
                    self.wf(),
                    cs.wf(),
                    c0.extends_to(cs),
                    cj.extends_to(cs),
                    self.bound_in(*cs),
                    all_bound(*cs, result@),
                    all_bound(*cs, to_add@),
                    w == self.width_spec(),
                    0 <= j < w,
                    0 <= k <= w,
                    to_add@.len() == k,
                    self.mds_matrix@[j as int]@.len() == w,
                    self.matrix()[j as int] == self.mds_matrix@[j as int]@,
                    cs.cons().len() == cj.cons().len() + k,
                    cj.cons().len() == c0.cons().len() + j * (w + 1),
                    cs.vals().len() == c0.vals().len() + j * (w + 1) + k,
                    forall|jj: int, kk: int| 0 <= jj < j && 0 <= kk < w ==> is_mul_constraint(
                        cs.cons()[c0.cons().len() + jj * (w + 1) + kk],
                        (#[trigger] self.matrix()[jj][kk]).var(),
                        self.elems()[kk].var(),
                        (c0.vals().len() + jj * (w + 1) + kk) as usize,
                    ),
                    forall|jj: int| 0 <= jj < j ==> (#[trigger] result@[jj]).var() == c0.vals().len() + jj * (w + 1) + w,
                    forall|jj: int| 0 <= jj < j ==> is_sum_constraint(
                        cs.cons()[c0.cons().len() + jj * (w + 1) + w],
                        Seq::new(w as nat, |kk: int| (c0.vals().len() + jj * (w + 1) + kk) as usize),
                        (#[trigger] result@[jj]).var(),
                    ),
                    forall|kk: int| 0 <= kk < k ==> (#[trigger] to_add@[kk]).var() == c0.vals().len() + j * (w + 1) + kk,
                    forall|kk: int| 0 <= kk < k ==> is_mul_constraint(
                        cs.cons()[c0.cons().len() + j * (w + 1) + kk],
                        (#[trigger] self.matrix()[j as int][kk]).var(),
                        self.elems()[kk].var(),
                        (c0.vals().len() + j * (w + 1) + kk) as usize,
                    ),
                    c0.computes() ==> all_valued(result@),
                    c0.computes() ==> all_valued(to_add@),
                    c0.computes() ==> all_valued(self.elems()) && self.matrix_valued(),
                    c0.computes() && c0.satisfied() ==> cs.satisfied(),
                    c0.computes() ==> forall|i: int| 0 <= i < k ==> (#[trigger] to_add@[i]).num() == fmul(self.mds()[j as int][i], self.state()[i]),
                decreases w - k,
            {
                let ghost ck = *cs;
                assert(all_bound(*cs, self.matrix()[j as int]));
                assert(cs.binds(self.mds_matrix@[j as int]@[k as int]));
                assert(cs.binds(self.elements@[k as int]));
                assert(c0.computes() ==> self.mds_matrix@[j as int]@[k as int].val() is Some);
                assert(c0.computes() ==> self.elements@[k as int].val() is Some);
                let product = match self.mds_matrix[j][k].mul(cs, &self.elements[k]) {
                    Ok(n) => n,
                    Err(e) => {
                        return Err(e);
                    },
                };
                proof {
                    assert forall|jj: int, kk: int| 0 <= jj < j && 0 <= kk < w implies is_mul_constraint(
                        cs.cons()[c0.cons().len() + jj * (w + 1) + kk],
                        (#[trigger] self.matrix()[jj][kk]).var(),
                        self.elems()[kk].var(),
                        (c0.vals().len() + jj * (w + 1) + kk) as usize,
                    ) by {
                        assert(jj * (w + 1) + kk < j * (w + 1)) by (nonlinear_arith)
                            requires jj < j, kk < w, 0 <= jj, 0 <= kk;
                        assert(cs.cons()[c0.cons().len() + jj * (w + 1) + kk] == ck.cons()[c0.cons().len() + jj * (w + 1) + kk]);
                    }
                    assert forall|jj: int| 0 <= jj < j implies is_sum_constraint(
                        cs.cons()[c0.cons().len() + jj * (w + 1) + w],
                        Seq::new(w as nat, |kk: int| (c0.vals().len() + jj * (w + 1) + kk) as usize),
                        (#[trigger] result@[jj]).var(),
                    ) by {
                        assert(jj * (w + 1) + w < j * (w + 1)) by (nonlinear_arith)
                            requires jj < j, 0 <= jj, 0 <= w;
                        assert(cs.cons()[c0.cons().len() + jj * (w + 1) + w] == ck.cons()[c0.cons().len() + jj * (w + 1) + w]);
                    }
                    assert forall|kk: int| 0 <= kk < k implies is_mul_constraint(
                        cs.cons()[c0.cons().len() + j * (w + 1) + kk],
                        (#[trigger] self.matrix()[j as int][kk]).var(),
                        self.elems()[kk].var(),
                        (c0.vals().len() + j * (w + 1) + kk) as usize,
                    ) by {
                        assert(cs.cons()[c0.cons().len() + j * (w + 1) + kk] == ck.cons()[c0.cons().len() + j * (w + 1) + kk]);
                    }
                    assert(self.matrix()[j as int][k as int] == self.mds_matrix@[j as int]@[k as int]);
                    lemma_extends_trans(c0, ck, *cs);
                    lemma_extends_trans(cj, ck, *cs);
                    self.lemma_bound_extend(ck, *cs);
                    lemma_all_bound_extend(ck, *cs, result@);
                    lemma_all_bound_extend(ck, *cs, to_add@);
                }
                to_add.push(product);
                assert forall|kk: int| 0 <= kk < k + 1 implies (#[trigger] to_add@[kk]).var() == c0.vals().len() + j * (w + 1) + kk by {
                    if kk < k {
                        assert(to_add@[kk] == to_add@.drop_last()[kk]);
                    }
                }
                assert(c0.computes() ==> all_valued(to_add@)) by {
                    if c0.computes() {
                        assert forall|x: int| 0 <= x < to_add@.len() implies (#[trigger] to_add@[x]).val() is Some by {
                            if x < k {
                                assert(to_add@[x] == to_add@.drop_last()[x]);
                            }
                        }
                    }
                }
                k = k + 1;
            }
            let ghost cm = *cs;
            let row = match multi_add(cs, to_add.as_slice()) {
                Ok(n) => n,
                Err(e) => {
                    return Err(e);
                },
            };
            proof {
                assert forall|jj: int, kk: int| 0 <= jj < j + 1 && 0 <= kk < w implies is_mul_constraint(
                    cs.cons()[c0.cons().len() + jj * (w + 1) + kk],
                    (#[trigger] self.matrix()[jj][kk]).var(),
                    self.elems()[kk].var(),
                    (c0.vals().len() + jj * (w + 1) + kk) as usize,
                ) by {
                    assert(jj * (w + 1) + kk < j * (w + 1) + w) by (nonlinear_arith)
                        requires jj < j + 1, kk < w, 0 <= jj, 0 <= kk;
                    assert(cs.cons()[c0.cons().len() + jj * (w + 1) + kk] == cm.cons()[c0.cons().len() + jj * (w + 1) + kk]);
                }
                assert forall|jj: int| 0 <= jj < j implies is_sum_constraint(
                    cs.cons()[c0.cons().len() + jj * (w + 1) + w],
                    Seq::new(w as nat, |kk: int| (c0.vals().len() + jj * (w + 1) + kk) as usize),
                    (#[trigger] result@[jj]).var(),
                ) by {
                    assert(jj * (w + 1) + w < j * (w + 1)) by (nonlinear_arith)
                        requires jj < j, 0 <= jj, 0 <= w;
                    assert(cs.cons()[c0.cons().len() + jj * (w + 1) + w] == cm.cons()[c0.cons().len() + jj * (w + 1) + w]);
                }
                assert(vars_of(to_add@) =~= Seq::new(w as nat, |kk: int| (c0.vals().len() + j * (w + 1) + kk) as usize));
                lemma_extends_trans(c0, cm, *cs);
                self.lemma_bound_extend(cm, *cs);
                lemma_all_bound_extend(cm, *cs, result@);
                if c0.computes() {
                    assert(nums_of(to_add@) =~= Seq::new(self.state().len(), |i: int| fmul(self.mds()[j as int][i], self.state()[i])));
                }
                assert(j * (w + 1) + w + 1 == (j + 1) * (w + 1)) by (nonlinear_arith);
            }
            result.push(row);
            assert forall|jj: int| 0 <= jj < j + 1 implies (#[trigger] result@[jj]).var() == c0.vals().len() + jj * (w + 1) + w by {
                if jj < j {
                    assert(result@[jj] == result@.drop_last()[jj]);
                }
            }
            assert forall|jj: int| 0 <= jj < j + 1 implies is_sum_constraint(
                cs.cons()[c0.cons().len() + jj * (w + 1) + w],
                Seq::new(w as nat, |kk: int| (c0.vals().len() + jj * (w + 1) + kk) as usize),
                (#[trigger] result@[jj]).var(),
            ) by {
                if jj < j {
                    assert(result@[jj] == result@.drop_last()[jj]);
                }
            }
            assert(c0.computes() ==> all_valued(result@)) by {
                if c0.computes() {
                    assert forall|x: int| 0 <= x < result@.len() implies (#[trigger] result@[x]).val() is Some by {
                        if x < j {
                            assert(result@[x] == result@.drop_last()[x]);
                        }
                    }
                }
            }
            j = j + 1;
        }
        self.elements = result;
        proof {
            if c0.computes() {
                assert(self.state() =~= mds_apply(old(self).mds(), old(self).state()));
            }
        }
        Ok(())
    }

    /// Adds the next `width` round constants to the state, slot by slot,
    /// and advances the cursor past them.
    fn add_round_constants(&mut self, cs: &mut ConstraintSystem) -> (r: Result<(), SynthesisError>)
        requires
            old(self).wf(),
            old(self).offset() + old(self).width_spec() <= old(self).consts().len(),
            old(cs).wf(),
            old(self).bound_in(*old(cs)),
            old(cs).computes() ==> old(self).valued_up_to(old(self).offset() + old(self).width_spec()),
        ensures
            r is Ok,
            old(cs).computes() ==> all_valued(final(self).elems()),
            old(cs).computes() && old(cs).satisfied() ==> final(cs).satisfied(),
            final(self).wf(),
            old(self).same_params(final(self)),
            final(self).offset() == old(self).offset() + old(self).width_spec(),
            final(cs).wf(),
            old(cs).extends_to(final(cs)),
            final(self).bound_in(*final(cs)),
            final(cs).cons().len() == old(cs).cons().len() + old(self).width_spec(),
            final(cs).vals().len() == old(cs).vals().len() + old(self).width_spec(),
            forall|k: int| 0 <= k < old(self).width_spec() ==> (#[trigger] final(self).elems()[k]).var() == old(cs).vals().len() + k,
            forall|k: int| 0 <= k < old(self).width_spec() ==> is_sum_constraint(
                final(cs).cons()[old(cs).cons().len() + k],
                seq![old(self).elems()[k].var(), old(self).consts()[old(self).offset() + k].var()],
                (#[trigger] final(self).elems()[k]).var(),
            ),
            old(cs).computes() ==> final(self).state() == add_rc(old(self).state(), old(self).rc(), old(self).offset() as int),
    {
        let ghost c0 = *cs;
        let ghost s0 = self.state();
        let ghost off0 = self.constants_offset as int;
        let mut constants_offset = self.constants_offset;
        let n_constants = self.round_constants.len();
        let mut i: usize = 0;
        while i < self.elements.len()
            invariant
                self.wf(),
                old(self).same_params(self),
                self.offset() == old(self).offset(),
                self.elems().len() == old(self).elems().len(),
                s0 == old(self).state(),
                off0 == old(self).offset(),
                off0 + self.width_spec() <= self.consts().len(),
                constants_offset == off0 + i,
                n_constants == self.consts().len(),
                cs.wf(),
                c0.extends_to(cs),
                self.bound_in(*cs),
                0 <= i <= self.width_spec(),
                cs.cons().len() == c0.cons().len() + i,
                forall|k: int| i <= k < self.width_spec() ==> #[trigger] self.elems()[k] == old(self).elems()[k],
                cs.vals().len() == c0.vals().len() + i,
                forall|k: int| 0 <= k < i ==> (#[trigger] self.elems()[k]).var() == c0.vals().len() + k,
                forall|k: int| 0 <= k < i ==> is_sum_constraint(
                    cs.cons()[c0.cons().len() + k],
                    seq![old(self).elems()[k].var(), self.consts()[off0 + k].var()],
                    (#[trigger] self.elems()[k]).var(),
                ),
                c0.computes() ==> all_valued(self.elems()),
                c0.computes() ==> self.consts_valued(off0, off0 + self.width_spec()),
                c0.computes() && c0.satisfied() ==> cs.satisfied(),
                c0.computes() ==> forall|k: int| 0 <= k < i ==> (#[trigger] self.elems()[k]).num() == fadd(s0[k], self.rc()[off0 + k]),
            decreases self.width_spec() - i,
        {
            let ghost ci = *cs;
            assert(self.elems().len() == self.width_spec());
            assert(constants_offset < self.round_constants@.len());
            assert(cs.binds(self.elements@[i as int]));
            assert(cs.binds(self.round_constants@[constants_offset as int]));
            let n = match crate::gadgets::add(cs, &self.elements[i], &self.round_constants[constants_offset]) {
                Ok(n) => n,
                Err(e) => {
                    return Err(e);
                },
            };
            constants_offset = constants_offset + 1;
            proof {
                lemma_extends_trans(c0, ci, *cs);
                self.lemma_bound_extend(ci, *cs);
            }
            proof {
                assert forall|k: int| 0 <= k < i implies is_sum_constraint(
                    cs.cons()[c0.cons().len() + k],
                    seq![old(self).elems()[k].var(), self.consts()[off0 + k].var()],
                    (#[trigger] self.elems()[k]).var(),
                ) by {
                    assert(cs.cons()[c0.cons().len() + k] == ci.cons()[c0.cons().len() + k]);
                }
                assert(self.elems()[i as int] == old(self).elems()[i as int]);
            }
            self.elements.set(i, n);
            assert(cs.computes() ==> all_valued(self.elems())) by {
                if cs.computes() {
                    assert forall|k: int| 0 <= k < self.elems().len() implies (#[trigger] self.elems()[k]).val() is Some by {
                        if k != i {
                            assert(self.elems()[k] == self.elements@[k]);
                        }
                    }
                }
            }
            assert(all_bound(*cs, self.elems())) by {
                assert forall|k: int| 0 <= k < self.elems().len() implies cs.binds(#[trigger] self.elems()[k]) by {
                    if k != i {
                        assert(self.elems()[k] == self.elements@[k]);
                    }
                }
            }
            i = i + 1;
        }
        self.constants_offset = constants_offset;
        proof {
            if c0.computes() {
                assert(self.state() =~= add_rc(s0, self.rc(), off0));
            }
        }
        Ok(())
    }

    /// Constants, the S-box on every slot, then the matrix.
    fn full_round(&mut self, cs: &mut ConstraintSystem) -> (r: Result<(), SynthesisError>)
        requires
            old(self).wf(),
            old(self).offset() + old(self).width_spec() <= old(self).consts().len(),
            old(cs).wf(),
            old(self).bound_in(*old(cs)),
            old(cs).computes() ==> old(self).valued_up_to(old(self).offset() + old(self).width_spec()),
        ensures
            r is Ok,
            old(cs).computes() ==> all_valued(final(self).elems()),
            old(cs).computes() && old(cs).satisfied() ==> final(cs).satisfied(),
            final(self).wf(),
            old(self).same_params(final(self)),
            final(self).offset() == old(self).offset() + old(self).width_spec(),
            final(cs).wf(),
            old(cs).extends_to(final(cs)),
            final(self).bound_in(*final(cs)),
            final(cs).cons().len() == old(cs).cons().len() + full_round_cost(old(self).width_spec()),
            final(cs).vals().len() == old(cs).vals().len() + full_round_cost(old(self).width_spec()),
            forall|i: int| 0 <= i < old(self).width_spec() ==> #[trigger] sbox_in_round(
                *final(cs),
                (old(cs).cons().len() + old(self).width_spec()) as int,
                old(cs).vals().len() as int,
                (old(cs).vals().len() + old(self).width_spec()) as int,
                i,
            ),
            forall|i: int| 0 <= i < old(self).width_spec() ==> #[trigger] reads_constant_at(
                *final(cs),
                old(cs).cons().len() as int,
                old(self).consts(),
                old(self).offset() as int,
                i,
            ),
            old(cs).computes() ==> final(self).state() == round(
                old(self).state(),
                old(self).rc(),
                old(self).offset() as int,
                old(self).mds(),
                true,
            ),
    {
        let ghost c0 = *cs;
        let ghost p0 = *self;
        match self.add_round_constants(cs) {
            Ok(()) => {},
            Err(e) => {
                return Err(e);
            },
        }
        let ghost c1 = *cs;
        let ghost s1 = self.state();
        let ghost p1 = *self;
        let mut i: usize = 0;
        while i < self.elements.len()
            invariant
                self.wf(),
                p1.same_params(self),
                p1.wf(),
                self.offset() == p1.offset(),
                self.elems().len() == p1.elems().len(),
                s1 == p1.state(),
                cs.wf(),
                c1.extends_to(cs),
                self.bound_in(*cs),
                0 <= i <= self.width_spec(),
                cs.cons().len() == c1.cons().len() + 3 * i,
                forall|k: int| i <= k < self.width_spec() ==> #[trigger] self.elems()[k] == p1.elems()[k],
                c1.cons().len() == c0.cons().len() + self.width_spec(),
                c1.vals().len() == c0.vals().len() + self.width_spec(),
                cs.vals().len() == c1.vals().len() + 3 * i,
                forall|k: int| i <= k < self.width_spec() ==> (#[trigger] self.elems()[k]).var() == c0.vals().len() + k,
                forall|k: int| 0 <= k < i ==> #[trigger] sbox_in_round(
                    *cs,
                    c1.cons().len() as int,
                    c0.vals().len() as int,
                    c1.vals().len() as int,
                    k,
                ),
                c1.computes() ==> all_valued(self.elems()),
                c0.computes() && c0.satisfied() ==> cs.satisfied(),
                c1.extends_to(cs),
                c0.extends_to(&c1),
                c1.computes() ==> forall|k: int| 0 <= k < i ==> (#[trigger] self.elems()[k]).num() == sbox(s1[k]),
            decreases self.width_spec() - i,
        {
            let ghost ci = *cs;
            assert(cs.binds(self.elements@[i as int]));
            let n = match quintic_s_box(cs, &self.elements[i]) {
                Ok(n) => n,
                Err(e) => {
                    return Err(e);
                },
            };
            proof {
                assert forall|k: int| 0 <= k < i implies #[trigger] sbox_in_round(
                    *cs,
                    c1.cons().len() as int,
                    c0.vals().len() as int,
                    c1.vals().len() as int,
                    k,
                ) by {
                    assert(sbox_in_round(ci, c1.cons().len() as int, c0.vals().len() as int, c1.vals().len() as int, k));
                    lemma_sbox_kept(ci, *cs, c1.cons().len() + 3 * k, (c0.vals().len() + k) as usize, (c1.vals().len() + 3 * k) as usize);
                }
                assert(self.elems()[i as int].var() == c0.vals().len() + i);
                assert(sbox_in_round(*cs, c1.cons().len() as int, c0.vals().len() as int, c1.vals().len() as int, i as int));
            }
            proof {
                lemma_extends_trans(c1, ci, *cs);
                self.lemma_bound_extend(ci, *cs);
            }
            self.elements.set(i, n);
            assert(cs.computes() ==> all_valued(self.elems())) by {
                if cs.computes() {
                    assert forall|k: int| 0 <= k < self.elems().len() implies (#[trigger] self.elems()[k]).val() is Some by {
                        if k != i {
                            assert(self.elems()[k] == self.elements@[k]);
                        }
                    }
                }
            }
            assert(all_bound(*cs, self.elems())) by {
                assert forall|k: int| 0 <= k < self.elems().len() implies cs.binds(#[trigger] self.elems()[k]) by {
                    if k != i {
                        assert(self.elems()[k] == self.elements@[k]);
                    }
                }
            }
            i = i + 1;
        }
        proof {
            if c0.computes() {
                assert(self.state() =~= sbox_all(s1));
            }
        }
        let ghost c2 = *cs;
        let ghost s2 = self.state();
        match self.product_mds(cs) {
            Ok(()) => {},
            Err(e) => {
                return Err(e);
            },
        }
        proof {
            assert forall|i: int| 0 <= i < old(self).width_spec() implies #[trigger] reads_constant_at(
                *cs,
                c0.cons().len() as int,
                old(self).consts(),
                old(self).offset() as int,
                i,
            ) by {
                assert(is_sum_constraint(
                    c1.cons()[c0.cons().len() + i],
                    seq![p0.elems()[i].var(), p0.consts()[p0.offset() + i].var()],
                    p1.elems()[i].var(),
                ));
                lemma_extends_trans(c1, c2, *cs);
                assert(cs.cons()[c0.cons().len() + i] == c1.cons()[c0.cons().len() + i]);
            }
            lemma_extends_trans(c0, c1, c2);
            lemma_extends_trans(c0, c2, *cs);
            assert forall|k: int| 0 <= k < self.width_spec() implies #[trigger] sbox_in_round(
                *cs,
                (c0.cons().len() + self.width_spec()) as int,
                c0.vals().len() as int,
                (c0.vals().len() + self.width_spec()) as int,
                k,
            ) by {
                assert(sbox_in_round(c2, c1.cons().len() as int, c0.vals().len() as int, c1.vals().len() as int, k));
                lemma_sbox_kept(c2, *cs, c1.cons().len() + 3 * k, (c0.vals().len() + k) as usize, (c1.vals().len() + 3 * k) as usize);
            }
        }
        Ok(())
    }

    /// Constants, the S-box on slot 0 only, then the matrix.
    fn partial_round(&mut self, cs: &mut ConstraintSystem) -> (r: Result<(), SynthesisError>)
        requires
            old(self).wf(),
            old(self).offset() + old(self).width_spec() <= old(self).consts().len(),
            old(cs).wf(),
            old(self).bound_in(*old(cs)),
            old(cs).computes() ==> old(self).valued_up_to(old(self).offset() + old(self).width_spec()),
        ensures
            r is Ok,
            old(cs).computes() ==> all_valued(final(self).elems()),
            old(cs).computes() && old(cs).satisfied() ==> final(cs).satisfied(),
            final(self).wf(),
            old(self).same_params(final(self)),
            final(self).offset() == old(self).offset() + old(self).width_spec(),
            final(cs).wf(),
            old(cs).extends_to(final(cs)),
            final(self).bound_in(*final(cs)),
            final(cs).cons().len() == old(cs).cons().len() + partial_round_cost(old(self).width_spec()),
            final(cs).vals().len() == old(cs).vals().len() + partial_round_cost(old(self).width_spec()),
            is_sbox_at(
                *final(cs),
                (old(cs).cons().len() + old(self).width_spec()) as int,
                old(cs).vals().len() as usize,
                (old(cs).vals().len() + old(self).width_spec()) as usize,
            ),
            forall|i: int| 0 <= i < old(self).width_spec() ==> #[trigger] reads_constant_at(
                *final(cs),
                old(cs).cons().len() as int,
                old(self).consts(),
                old(self).offset() as int,
                i,
            ),
            old(cs).computes() ==> final(self).state() == round(
                old(self).state(),
                old(self).rc(),
                old(self).offset() as int,
                old(self).mds(),
                false,
            ),
    {
        let ghost c0 = *cs;
        let ghost p0 = *self;
        match self.add_round_constants(cs) {
            Ok(()) => {},
            Err(e) => {
                return Err(e);
            },
        }
        let ghost c1 = *cs;
        let ghost p1 = *self;
        let ghost s1 = self.state();
        assert(cs.binds(self.elements@[0]));
        assert(self.elems()[0].var() == c0.vals().len());
        let n = match quintic_s_box(cs, &self.elements[0]) {
            Ok(n) => n,
            Err(e) => {
                return Err(e);
            },
        };
        proof {
            self.lemma_bound_extend(c1, *cs);
        }
        self.elements.set(0, n);
        assert(cs.computes() ==> all_valued(self.elems())) by {
            if cs.computes() {
                assert forall|k: int| 0 <= k < self.elems().len() implies (#[trigger] self.elems()[k]).val() is Some by {
                    if k != 0 {
                        assert(self.elems()[k] == self.elements@[k]);
                    }
                }
            }
        }
        assert(all_bound(*cs, self.elems())) by {
            assert forall|k: int| 0 <= k < self.elems().len() implies cs.binds(#[trigger] self.elems()[k]) by {
                if k != 0 {
                    assert(self.elems()[k] == self.elements@[k]);
                }
            }
        }
        proof {
            if c0.computes() {
                assert(self.state() =~= sbox_first(s1));
            }
        }
        let ghost c2 = *cs;
        match self.product_mds(cs) {
            Ok(()) => {},
            Err(e) => {
                return Err(e);
            },
        }
        proof {
            assert forall|i: int| 0 <= i < old(self).width_spec() implies #[trigger] reads_constant_at(
                *cs,
                c0.cons().len() as int,
                old(self).consts(),
                old(self).offset() as int,
                i,
            ) by {
                assert(is_sum_constraint(
                    c1.cons()[c0.cons().len() + i],
                    seq![p0.elems()[i].var(), p0.consts()[p0.offset() + i].var()],
                    p1.elems()[i].var(),
                ));
                lemma_extends_trans(c1, c2, *cs);
                assert(cs.cons()[c0.cons().len() + i] == c1.cons()[c0.cons().len() + i]);
            }
            lemma_extends_trans(c0, c1, c2);
            lemma_extends_trans(c0, c2, *cs);
            lemma_sbox_kept(c2, *cs, c1.cons().len() as int, c0.vals().len() as usize, c1.vals().len() as usize);
        }
        Ok(())
    }

    /// Whether the state, the matrix and the round constants from the cursor
    /// up to `end` all carry values.
    fn has_values(&self, end: usize) -> (r: bool)
        requires
            self.wf(),
            self.offset() <= end <= self.consts().len(),
        ensures
            r == self.valued_up_to(end as nat),
    {
        let mut i: usize = 0;
        while i < self.elements.len()
            invariant
                self.wf(),
                0 <= i <= self.elems().len(),
                forall|k: int| 0 <= k < i ==> (#[trigger] self.elems()[k]).val() is Some,
            decreases self.elems().len() - i,
        {
            if self.elements[i].get_value().is_none() {
                return false;
            }
            i = i + 1;
        }
        let mut j: usize = 0;
        while j < self.mds_matrix.len()
            invariant
                self.wf(),
                all_valued(self.elems()),
                0 <= j <= self.matrix().len(),
                forall|a: int| 0 <= a < j ==> all_valued(#[trigger] self.matrix()[a]),
            decreases self.matrix().len() - j,
        {
            let mut k: usize = 0;
            assert(self.matrix()[j as int] == self.mds_matrix@[j as int]@);
            while k < self.mds_matrix[j].len()
                invariant
                    self.wf(),
                    0 <= j < self.matrix().len(),
                    self.matrix()[j as int] == self.mds_matrix@[j as int]@,
                    0 <= k <= self.matrix()[j as int].len(),
                    forall|b: int| 0 <= b < k ==> (#[trigger] self.matrix()[j as int][b]).val() is Some,
                decreases self.matrix()[j as int].len() - k,
            {
                if self.mds_matrix[j][k].get_value().is_none() {
                    assert(!self.matrix_valued());
                    return false;
                }
                k = k + 1;
            }
            j = j + 1;
        }
        let mut c: usize = self.constants_offset;
        while c < end
            invariant
                self.wf(),
                all_valued(self.elems()),
                self.matrix_valued(),
                self.offset() <= c <= end <= self.consts().len(),
                self.consts_valued(self.offset() as int, c as int),
            decreases end - c,
        {
            if self.round_constants[c].get_value().is_none() {
                return false;
            }
            c = c + 1;
        }
        true
    }

    /// Runs the schedule: `full_rounds / 2` full rounds, `partial_rounds`
    /// partial rounds, `full_rounds / 2` full rounds. The digest is slot 1.
    /// In witness mode, a missing value in the state, the matrix or the round
    /// constants that the run reads is an error, and nothing is registered.
    pub fn hash(&mut self, cs: &mut ConstraintSystem) -> (r: Result<Num, SynthesisError>)
        requires
            old(self).wf(),
            old(self).offset() + old(self).width_spec() * num_rounds(old(self).rf(), old(self).rp())
                <= old(self).consts().len(),
            old(cs).wf(),
            old(self).bound_in(*old(cs)),
        ensures
            r is Err <==> (old(cs).computes() && !old(self).valued_up_to(
                old(self).offset() + old(self).width_spec() * num_rounds(old(self).rf(), old(self).rp()),
            )),
            r is Err ==> *final(self) == *old(self) && *final(cs) == *old(cs),
            final(self).wf(),
            old(self).same_params(final(self)),
            final(cs).wf(),
            old(cs).extends_to(final(cs)),
            final(self).bound_in(*final(cs)),
            old(cs).computes() && old(cs).satisfied() ==> final(cs).satisfied(),
            r is Ok ==> final(self).offset() == old(self).offset() + old(self).width_spec() * num_rounds(old(self).rf(), old(self).rp()),
            r is Ok ==> final(cs).cons().len() == old(cs).cons().len() + constraint_count(
                old(self).width_spec(),
                old(self).rf(),
                old(self).rp(),
            ),
            r is Ok && old(cs).computes() ==> final(self).state() == rounds(
                old(self).state(),
                old(self).rc(),
                old(self).offset() as int,
                old(self).mds(),
                old(self).rf(),
                old(self).rp(),
                num_rounds(old(self).rf(), old(self).rp()),
            ),
            r is Ok ==> forall|rr: int, k: int| 0 <= rr < num_rounds(old(self).rf(), old(self).rp()) && 0 <= k < old(self).width_spec()
                ==> #[trigger] round_reads(
                *final(cs),
                old(cs).cons().len() as int,
                old(self).consts(),
                old(self).offset() as int,
                old(self).width_spec(),
                old(self).rf(),
                old(self).rp(),
                rr,
                k,
            ),
            r is Ok ==> forall|rr: int, k: int| 0 <= rr < num_rounds(old(self).rf(), old(self).rp()) && 0 <= k < old(self).width_spec()
                ==> #[trigger] round_sboxes(
                *final(cs),
                old(cs).cons().len() as int,
                old(cs).vals().len() as int,
                old(self).width_spec(),
                old(self).rf(),
                old(self).rp(),
                rr,
                k,
            ),
            r matches Ok(n) ==> n == final(self).elems()[1] && final(cs).binds(n) && (n.val() is Some <==> old(cs).computes()),
    {
        let half = self.full_rounds / 2;
        let ghost nr = num_rounds(self.rf(), self.rp()) as int;
        assert(nr <= self.width_spec() * nr) by (nonlinear_arith)
            requires self.width_spec() >= 2, nr >= 0;
        let n_consts = self.round_constants.len();
        let n_rounds = half + half + self.partial_rounds;
        let end = self.constants_offset + self.width * n_rounds;
        if cs.is_witness_mode() && !self.has_values(end) {
            return Err(SynthesisError::AssignmentMissing);
        }
        let ghost c0 = *cs;
        let ghost s0 = self.state();
        let ghost off0 = self.offset() as int;
        let ghost w = self.width_spec() as int;
        let ghost fc = full_round_cost(self.width_spec()) as int;
        let ghost pc = partial_round_cost(self.width_spec()) as int;
        let half = self.full_rounds / 2;
        let mut i: usize = 0;
        while i < half
            invariant
                self.wf(),
                old(self).same_params(self),
                cs.wf(),
                c0.extends_to(cs),
                self.bound_in(*cs),
                w == self.width_spec(),
                s0 == old(self).state(),
                s0.len() == w,
                off0 == old(self).offset(),
                half == self.rf() / 2,
                fc == full_round_cost(w as nat),
                pc == partial_round_cost(w as nat),
                c0.computes() ==> all_valued(self.elems()) && self.matrix_valued(),
                c0.computes() ==> self.consts_valued(off0, off0 + w * num_rounds(self.rf(), self.rp())),
                c0.computes() && c0.satisfied() ==> cs.satisfied(),
                cs.vals().len() - c0.vals().len() == cs.cons().len() - c0.cons().len(),
                forall|rr: int, k: int| 0 <= rr < i as int && 0 <= k < w ==> #[trigger] round_sboxes(
                    *cs,
                    c0.cons().len() as int,
                    c0.vals().len() as int,
                    self.width_spec(),
                    self.rf(),
                    self.rp(),
                    rr,
                    k,
                ),
                forall|rr: int, k: int| 0 <= rr < i as int && 0 <= k < w ==> #[trigger] round_reads(
                    *cs,
                    c0.cons().len() as int,
                    self.consts(),
                    off0,
                    self.width_spec(),
                    self.rf(),
                    self.rp(),
                    rr,
                    k,
                ),
                off0 + w * num_rounds(self.rf(), self.rp()) <= self.consts().len(),
                0 <= i <= half,
                self.offset() == off0 + i * w,
                cs.cons().len() == c0.cons().len() + i * fc,
                c0.computes() ==> self.state() == rounds(s0, self.rc(), off0, self.mds(), self.rf(), self.rp(), i as nat),
            decreases half - i,
        {
            let ghost ci = *cs;
            let ghost oi = self.offset();
            assert(off0 + i * w + w <= off0 + w * num_rounds(self.rf(), self.rp())) by (nonlinear_arith)
                requires i < half, half == self.rf() / 2, w >= 0, num_rounds(self.rf(), self.rp()) == 2 * half + self.rp();
            match self.full_round(cs) {
                Ok(()) => {},
                Err(e) => {
                    return Err(e);
                },
            }
            proof {
                lemma_extends_trans(c0, ci, *cs);
                lemma_round_start(self.width_spec(), self.rf(), self.rp(), i as int);
                assert(round_start(self.width_spec(), self.rf(), self.rp(), i as int) == ci.cons().len() - c0.cons().len());
                assert forall|rr: int, k: int| 0 <= rr < i as int + 1 && 0 <= k < w implies #[trigger] round_sboxes(
                    *cs,
                    c0.cons().len() as int,
                    c0.vals().len() as int,
                    self.width_spec(),
                    self.rf(),
                    self.rp(),
                    rr,
                    k,
                ) by {
                    lemma_round_start(self.width_spec(), self.rf(), self.rp(), rr);
                    if rr < i as int {
                        lemma_sboxes_kept(ci, *cs, c0.cons().len() as int, c0.vals().len() as int, self.width_spec(), self.rf(), self.rp(), rr, k);
                    } else {
                        assert(sbox_in_round(
                            *cs,
                            (ci.cons().len() + self.width_spec()) as int,
                            ci.vals().len() as int,
                            (ci.vals().len() + self.width_spec()) as int,
                            k,
                        ));
                        assert(4 * self.width_spec() <= full_round_cost(self.width_spec()));
                    }
                }
                assert forall|rr: int, k: int| 0 <= rr < i as int + 1 && 0 <= k < w implies #[trigger] round_reads(
                    *cs,
                    c0.cons().len() as int,
                    self.consts(),
                    off0,
                    self.width_spec(),
                    self.rf(),
                    self.rp(),
                    rr,
                    k,
                ) by {
                    if rr < i as int {
                        lemma_reads_kept(ci, *cs, c0.cons().len() as int, self.consts(), off0, self.width_spec(), self.rf(), self.rp(), rr, k);
                    } else {
                        assert(reads_constant_at(*cs, ci.cons().len() as int, self.consts(), oi as int, k));
                        assert(oi == off0 + rr * w);
                    }
                }
                assert(i * w + w == (i + 1) * w) by (nonlinear_arith);
                assert(i * fc + fc == (i + 1) * fc) by (nonlinear_arith);
                assert(is_full_round(i as nat, self.rf(), self.rp()));
            }
            i = i + 1;
        }
        let mut i: usize = 0;
        while i < self.partial_rounds
            invariant
                self.wf(),
                old(self).same_params(self),
                cs.wf(),
                c0.extends_to(cs),
                self.bound_in(*cs),
                w == self.width_spec(),
                s0 == old(self).state(),
                s0.len() == w,
                off0 == old(self).offset(),
                half == self.rf() / 2,
                fc == full_round_cost(w as nat),
                pc == partial_round_cost(w as nat),
                c0.computes() ==> all_valued(self.elems()) && self.matrix_valued(),
                c0.computes() ==> self.consts_valued(off0, off0 + w * num_rounds(self.rf(), self.rp())),
                c0.computes() && c0.satisfied() ==> cs.satisfied(),
                cs.vals().len() - c0.vals().len() == cs.cons().len() - c0.cons().len(),
                forall|rr: int, k: int| 0 <= rr < (half + i) as int && 0 <= k < w ==> #[trigger] round_sboxes(
                    *cs,
                    c0.cons().len() as int,
                    c0.vals().len() as int,
                    self.width_spec(),
                    self.rf(),
                    self.rp(),
                    rr,
                    k,
                ),
                forall|rr: int, k: int| 0 <= rr < (half + i) as int && 0 <= k < w ==> #[trigger] round_reads(
                    *cs,
                    c0.cons().len() as int,
                    self.consts(),
                    off0,
                    self.width_spec(),
                    self.rf(),
                    self.rp(),
                    rr,
                    k,
                ),
                off0 + w * num_rounds(self.rf(), self.rp()) <= self.consts().len(),
                0 <= i <= self.rp(),
                self.offset() == off0 + (half + i) * w,
                cs.cons().len() == c0.cons().len() + half * fc + i * pc,
                c0.computes() ==> self.state() == rounds(s0, self.rc(), off0, self.mds(), self.rf(), self.rp(), (half + i) as nat),
            decreases self.rp() - i,
        {
            let ghost ci = *cs;
            let ghost oi = self.offset();
            assert(off0 + (half + i) * w + w <= off0 + w * num_rounds(self.rf(), self.rp())) by (nonlinear_arith)
                requires i < self.rp(), w >= 0, num_rounds(self.rf(), self.rp()) == 2 * half + self.rp();
            match self.partial_round(cs) {
                Ok(()) => {},
                Err(e) => {
                    return Err(e);
                },
            }
            proof {
                lemma_extends_trans(c0, ci, *cs);
                lemma_round_start(self.width_spec(), self.rf(), self.rp(), (half + i) as int);
                assert(round_start(self.width_spec(), self.rf(), self.rp(), (half + i) as int) == ci.cons().len() - c0.cons().len());
                assert forall|rr: int, k: int| 0 <= rr < (half + i) as int + 1 && 0 <= k < w implies #[trigger] round_sboxes(
                    *cs,
                    c0.cons().len() as int,
                    c0.vals().len() as int,
                    self.width_spec(),
                    self.rf(),
                    self.rp(),
                    rr,
                    k,
                ) by {
                    lemma_round_start(self.width_spec(), self.rf(), self.rp(), rr);
                    if rr < (half + i) as int {
                        lemma_sboxes_kept(ci, *cs, c0.cons().len() as int, c0.vals().len() as int, self.width_spec(), self.rf(), self.rp(), rr, k);
                    }
                }
                assert forall|rr: int, k: int| 0 <= rr < (half + i) as int + 1 && 0 <= k < w implies #[trigger] round_reads(
                    *cs,
                    c0.cons().len() as int,
                    self.consts(),
                    off0,
                    self.width_spec(),
                    self.rf(),
                    self.rp(),
                    rr,
                    k,
                ) by {
                    if rr < (half + i) as int {
                        lemma_reads_kept(ci, *cs, c0.cons().len() as int, self.consts(), off0, self.width_spec(), self.rf(), self.rp(), rr, k);
                    } else {
                        assert(reads_constant_at(*cs, ci.cons().len() as int, self.consts(), oi as int, k));
                        assert(oi == off0 + rr * w);
                    }
                }
                assert((half + i) * w + w == (half + i + 1) * w) by (nonlinear_arith);
                assert(i * pc + pc == (i + 1) * pc) by (nonlinear_arith);
                assert(!is_full_round((half + i) as nat, self.rf(), self.rp()));
            }
            i = i + 1;
        }
        let mut i: usize = 0;
        while i < half
            invariant
                self.wf(),
                old(self).same_params(self),
                cs.wf(),
                c0.extends_to(cs),
                self.bound_in(*cs),
                w == self.width_spec(),
                s0 == old(self).state(),
                s0.len() == w,
                off0 == old(self).offset(),
                half == self.rf() / 2,
                fc == full_round_cost(w as nat),
                pc == partial_round_cost(w as nat),
                c0.computes() ==> all_valued(self.elems()) && self.matrix_valued(),
                c0.computes() ==> self.consts_valued(off0, off0 + w * num_rounds(self.rf(), self.rp())),
                c0.computes() && c0.satisfied() ==> cs.satisfied(),
                cs.vals().len() - c0.vals().len() == cs.cons().len() - c0.cons().len(),
                forall|rr: int, k: int| 0 <= rr < (half + self.rp() + i) as int && 0 <= k < w ==> #[trigger] round_sboxes(
                    *cs,
                    c0.cons().len() as int,
                    c0.vals().len() as int,
                    self.width_spec(),
                    self.rf(),
                    self.rp(),
                    rr,
                    k,
                ),
                forall|rr: int, k: int| 0 <= rr < (half + self.rp() + i) as int && 0 <= k < w ==> #[trigger] round_reads(
                    *cs,
                    c0.cons().len() as int,
                    self.consts(),
                    off0,
                    self.width_spec(),
                    self.rf(),
                    self.rp(),
                    rr,
                    k,
                ),
                off0 + w * num_rounds(self.rf(), self.rp()) <= self.consts().len(),
                0 <= i <= half,
                self.offset() == off0 + (half + self.rp() + i) * w,
                cs.cons().len() == c0.cons().len() + half * fc + self.rp() * pc + i * fc,
                c0.computes() ==> self.state() == rounds(s0, self.rc(), off0, self.mds(), self.rf(), self.rp(), (half + self.rp() + i) as nat),
            decreases half - i,
        {
            let ghost ci = *cs;
            let ghost oi = self.offset();
            assert(off0 + (half + self.rp() + i) * w + w <= off0 + w * num_rounds(self.rf(), self.rp())) by (nonlinear_arith)
                requires i < half, w >= 0, num_rounds(self.rf(), self.rp()) == 2 * half + self.rp();
            match self.full_round(cs) {
                Ok(()) => {},
                Err(e) => {
                    return Err(e);
                },
            }
            proof {
                lemma_extends_trans(c0, ci, *cs);
                lemma_round_start(self.width_spec(), self.rf(), self.rp(), (half + self.rp() + i) as int);
                assert(round_start(self.width_spec(), self.rf(), self.rp(), (half + self.rp() + i) as int) == ci.cons().len() - c0.cons().len());
                assert forall|rr: int, k: int| 0 <= rr < (half + self.rp() + i) as int + 1 && 0 <= k < w implies #[trigger] round_sboxes(
                    *cs,
                    c0.cons().len() as int,
                    c0.vals().len() as int,
                    self.width_spec(),
                    self.rf(),
                    self.rp(),
                    rr,
                    k,
                ) by {
                    lemma_round_start(self.width_spec(), self.rf(), self.rp(), rr);
                    if rr < (half + self.rp() + i) as int {
                        lemma_sboxes_kept(ci, *cs, c0.cons().len() as int, c0.vals().len() as int, self.width_spec(), self.rf(), self.rp(), rr, k);
                    } else {
                        assert(sbox_in_round(
                            *cs,
                            (ci.cons().len() + self.width_spec()) as int,
                            ci.vals().len() as int,
                            (ci.vals().len() + self.width_spec()) as int,
                            k,
                        ));
                        assert(4 * self.width_spec() <= full_round_cost(self.width_spec()));
                    }
                }
                assert forall|rr: int, k: int| 0 <= rr < (half + self.rp() + i) as int + 1 && 0 <= k < w implies #[trigger] round_reads(
                    *cs,
                    c0.cons().len() as int,
                    self.consts(),
                    off0,
                    self.width_spec(),
                    self.rf(),
                    self.rp(),
                    rr,
                    k,
                ) by {
                    if rr < (half + self.rp() + i) as int {
                        lemma_reads_kept(ci, *cs, c0.cons().len() as int, self.consts(), off0, self.width_spec(), self.rf(), self.rp(), rr, k);
                    } else {
                        assert(reads_constant_at(*cs, ci.cons().len() as int, self.consts(), oi as int, k));
                        assert(oi == off0 + rr * w);
                    }
                }
                assert((half + self.rp() + i) * w + w == (half + self.rp() + i + 1) * w) by (nonlinear_arith);
                assert(i * fc + fc == (i + 1) * fc) by (nonlinear_arith);
                assert(is_full_round((half + self.rp() + i) as nat, self.rf(), self.rp()));
            }
            i = i + 1;
        }
        proof {
            assert(half * fc + self.rp() * pc + half * fc == 2 * half * fc + self.rp() * pc) by (nonlinear_arith);
            assert((half + self.rp() + half) * w == w * num_rounds(self.rf(), self.rp())) by (nonlinear_arith)
                requires num_rounds(self.rf(), self.rp()) == 2 * half + self.rp();
            assert(cs.binds(self.elems()[1]));
            if !c0.computes() {
                assert(cs.vals()[self.elems()[1].var() as int] is None);
            }
        }
        Ok(self.elements[1])
    }
}

/// The values of a list of field elements.
pub open spec fn scalars_of(v: Seq<Scalar>) -> Seq<nat> {
    v.map_values(|s: Scalar| s.value())
}

/// The fixed parameters of one instance of the permutation: the MDS matrix,
/// the round constants, the arity tag and the round counts.
#[derive(Clone, Debug)]
pub struct PoseidonParams {
    pub mds: Vec<Vec<Scalar>>,
    pub round_constants: Vec<Scalar>,
    pub arity_tag: Scalar,
    pub full_rounds: usize,
    pub partial_rounds: usize,
}

impl PoseidonParams {
    /// The matrix's values.
    pub open spec fn mds_values(&self) -> Seq<Seq<nat>> {
        Seq::new(self.mds@.len(), |j: int| scalars_of(self.mds@[j]@))
    }

    /// The round constants' values.
    pub open spec fn rc_values(&self) -> Seq<nat> {
        scalars_of(self.round_constants@)
    }

    /// Parameters for a state of `width` slots: a square matrix of that
    /// width, enough constants for every round, every element canonical.
    pub open spec fn wf(&self, width: nat) -> bool {
        &&& self.mds@.len() == width
        &&& forall|j: int| 0 <= j < width ==> (#[trigger] self.mds@[j])@.len() == width
        &&& forall|j: int, k: int| 0 <= j < width && 0 <= k < width ==> (#[trigger] self.mds@[j]@[k]).wf()
        &&& width * num_rounds(self.full_rounds as nat, self.partial_rounds as nat) <= self.round_constants@.len()
        &&& forall|i: int| 0 <= i < self.round_constants@.len() ==> (#[trigger] self.round_constants@[i]).wf()
        &&& self.arity_tag.wf()
    }
}

/// Allocates one fresh variable per element, holding it in witness mode.
fn alloc_constants(cs: &mut ConstraintSystem, vals: &[Scalar]) -> (r: Result<Vec<Num>, SynthesisError>)
    requires
        old(cs).wf(),
        forall|i: int| 0 <= i < vals@.len() ==> (#[trigger] vals@[i]).wf(),
    ensures
        final(cs).wf(),
        old(cs).extends_to(final(cs)),
        final(cs).cons() == old(cs).cons(),
        final(cs).vals().len() == old(cs).vals().len() + vals@.len(),
        old(cs).satisfied() ==> final(cs).satisfied(),
        r matches Ok(v) && {
            &&& v@.len() == vals@.len()
            &&& all_bound(*final(cs), v@)
            &&& forall|i: int| 0 <= i < v@.len() ==> (#[trigger] v@[i]).var() == old(cs).vals().len() + i
            &&& old(cs).computes() ==> all_valued(v@) && nums_of(v@) == scalars_of(vals@)
        },
{
    let ghost c0 = *cs;
    let mut out: Vec<Num> = Vec::new();
    let mut i: usize = 0;
    while i < vals.len()
        invariant
            forall|k: int| 0 <= k < vals@.len() ==> (#[trigger] vals@[k]).wf(),
            cs.wf(),
            c0.extends_to(cs),
            cs.cons() == c0.cons(),
            c0.satisfied() ==> cs.satisfied(),
            0 <= i <= vals@.len(),
            out@.len() == i,
            cs.vals().len() == c0.vals().len() + i,
            all_bound(*cs, out@),
            forall|k: int| 0 <= k < i ==> (#[trigger] out@[k]).var() == c0.vals().len() + k,
            c0.computes() ==> forall|k: int| 0 <= k < i ==> (#[trigger] out@[k]).val() == Some(vals@[k]),
        decreases vals@.len() - i,
    {
        let ghost ci = *cs;
        let n = cs.alloc_num(Some(vals[i]));
        proof {
            lemma_extends_trans(c0, ci, *cs);
            lemma_all_bound_extend(ci, *cs, out@);
        }
        out.push(n);
        i = i + 1;
    }
    proof {
        if c0.computes() {
            assert(nums_of(out@) =~= scalars_of(vals@));
        }
    }
    Ok(out)
}

/// Allocates the MDS matrix, one fresh variable per entry, with no
/// constraint.
pub fn allocated_matrix(cs: &mut ConstraintSystem, matrix: &Vec<Vec<Scalar>>) -> (r: Result<Vec<Vec<Num>>, SynthesisError>)
    requires
        old(cs).wf(),
        forall|j: int, k: int| 0 <= j < matrix@.len() && 0 <= k < matrix@[j]@.len() ==> (#[trigger] matrix@[j]@[k]).wf(),
    ensures
        final(cs).wf(),
        old(cs).extends_to(final(cs)),
        final(cs).cons() == old(cs).cons(),
        old(cs).satisfied() ==> final(cs).satisfied(),
        r matches Ok(m) && {
            &&& m@.len() == matrix@.len()
            &&& forall|j: int| 0 <= j < m@.len() ==> (#[trigger] m@[j])@.len() == matrix@[j]@.len()
            &&& forall|j: int| 0 <= j < m@.len() ==> all_bound(*final(cs), (#[trigger] m@[j])@)
            &&& forall|j: int, k: int| 0 <= j < m@.len() && 0 <= k < m@[j]@.len() ==> (#[trigger] m@[j]@[k]).var() >= old(cs).vals().len()
            &&& old(cs).computes() ==> forall|j: int| 0 <= j < m@.len() ==> all_valued((#[trigger] m@[j])@)
            &&& old(cs).computes() ==> forall|j: int| 0 <= j < m@.len() ==> nums_of((#[trigger] m@[j])@) == scalars_of(matrix@[j]@)
        },
{
    let ghost c0 = *cs;
    let mut mat: Vec<Vec<Num>> = Vec::new();
    let mut j: usize = 0;
    while j < matrix.len()
        invariant
            forall|a: int, b: int| 0 <= a < matrix@.len() && 0 <= b < matrix@[a]@.len() ==> (#[trigger] matrix@[a]@[b]).wf(),
            cs.wf(),
            c0.extends_to(cs),
            cs.cons() == c0.cons(),
            c0.satisfied() ==> cs.satisfied(),
            0 <= j <= matrix@.len(),
            mat@.len() == j,
            forall|a: int| 0 <= a < j ==> (#[trigger] mat@[a])@.len() == matrix@[a]@.len(),
            forall|a: int| 0 <= a < j ==> all_bound(*cs, (#[trigger] mat@[a])@),
            forall|a: int, b: int| 0 <= a < j && 0 <= b < mat@[a]@.len() ==> (#[trigger] mat@[a]@[b]).var() >= c0.vals().len(),
            c0.computes() ==> forall|a: int| 0 <= a < j ==> all_valued((#[trigger] mat@[a])@),
            c0.computes() ==> forall|a: int| 0 <= a < j ==> nums_of((#[trigger] mat@[a])@) == scalars_of(matrix@[a]@),
        decreases matrix@.len() - j,
    {
        let ghost cj = *cs;
        let row = match alloc_constants(cs, matrix[j].as_slice()) {
            Ok(v) => v,
            Err(e) => {
                return Err(e);
            },
        };
        proof {
            lemma_extends_trans(c0, cj, *cs);
            assert forall|a: int| 0 <= a < j implies all_bound(*cs, (#[trigger] mat@[a])@) by {
                lemma_all_bound_extend(cj, *cs, mat@[a]@);
            }
        }
        mat.push(row);
        proof {
            assert forall|a: int, b: int| 0 <= a < j + 1 && 0 <= b < mat@[a]@.len() implies (#[trigger] mat@[a]@[b]).var() >= c0.vals().len() by {
                if a == j {
                    assert(row@[b].var() == cj.vals().len() + b);
                }
            }
        }
        j = j + 1;
    }
    Ok(mat)
}

/// Allocates the round constants, one fresh variable each, with no
/// constraint.
pub fn allocated_round_constants(cs: &mut ConstraintSystem, constants: &[Scalar]) -> (r: Result<Vec<Num>, SynthesisError>)
    requires
        old(cs).wf(),
        forall|i: int| 0 <= i < constants@.len() ==> (#[trigger] constants@[i]).wf(),
    ensures
        final(cs).wf(),
        old(cs).extends_to(final(cs)),
        final(cs).cons() == old(cs).cons(),
        final(cs).vals().len() == old(cs).vals().len() + constants@.len(),
        old(cs).satisfied() ==> final(cs).satisfied(),
        r matches Ok(v) && {
            &&& v@.len() == constants@.len()
            &&& all_bound(*final(cs), v@)
            &&& forall|i: int| 0 <= i < v@.len() ==> (#[trigger] v@[i]).var() == old(cs).vals().len() + i
            &&& old(cs).computes() ==> all_valued(v@) && nums_of(v@) == scalars_of(constants@)
        },
{
    alloc_constants(cs, constants)
}

/// Hashes `preimage` in the circuit: materializes the matrix and the round
/// constants, allocates the arity tag, puts it in front of the preimage and
/// runs the permutation. The digest is slot 1 of the final state.
pub fn poseidon_hash(cs: &mut ConstraintSystem, preimage: Vec<Num>, params: &PoseidonParams) -> (r: Result<Num, SynthesisError>)
    requires
        old(cs).wf(),
        preimage@.len() >= 1,
        all_bound(*old(cs), preimage@),
        params.wf(preimage@.len() + 1),
    ensures
        final(cs).wf(),
        old(cs).extends_to(final(cs)),
        old(cs).computes() && old(cs).satisfied() ==> final(cs).satisfied(),
        r is Err <==> (old(cs).computes() && !all_valued(preimage@)),
        r is Err ==> final(cs).cons() == old(cs).cons(),
        r is Ok ==> final(cs).cons().len() == old(cs).cons().len() + constraint_count(
            preimage@.len() + 1,
            params.full_rounds as nat,
            params.partial_rounds as nat,
        ),
        r matches Ok(n) ==> {
            &&& final(cs).binds(n)
            &&& (n.val() is Some <==> old(cs).computes())
            &&& old(cs).computes() ==> n.num() == permutation(
                seq![params.arity_tag.value()] + nums_of(preimage@),
                params.rc_values(),
                params.mds_values(),
                params.full_rounds as nat,
                params.partial_rounds as nat,
            )[1]
        },
{
    let ghost c0 = *cs;
    let matrix = match allocated_matrix(cs, &params.mds) {
        Ok(m) => m,
        Err(e) => {
            return Err(e);
        },
    };
    let ghost c1 = *cs;
    let round_constants = match allocated_round_constants(cs, params.round_constants.as_slice()) {
        Ok(v) => v,
        Err(e) => {
            return Err(e);
        },
    };
    let ghost c2 = *cs;
    let arity_tag = cs.alloc_num(Some(params.arity_tag));
    proof {
        lemma_extends_trans(c0, c1, c2);
        lemma_extends_trans(c0, c2, *cs);
        lemma_extends_trans(c1, c2, *cs);
        lemma_all_bound_extend(c0, *cs, preimage@);
        lemma_all_bound_extend(c2, *cs, round_constants@);
        assert forall|j: int| 0 <= j < matrix@.len() implies all_bound(*cs, (#[trigger] matrix@[j])@) by {
            lemma_all_bound_extend(c1, *cs, matrix@[j]@);
        }
    }
    let mut elements: Vec<Num> = Vec::new();
    elements.push(arity_tag);
    let mut i: usize = 0;
    while i < preimage.len()
        invariant
            0 <= i <= preimage@.len(),
            elements@ =~= seq![arity_tag] + preimage@.take(i as int),
        decreases preimage@.len() - i,
    {
        elements.push(preimage[i]);
        i = i + 1;
        assert(elements@ =~= seq![arity_tag] + preimage@.take(i as int));
    }
    assert(preimage@.take(i as int) =~= preimage@);
    let ghost c3 = *cs;
    let mut p = PoseidonCircuit::new(elements, matrix, round_constants, params.full_rounds, params.partial_rounds);
    proof {
        assert forall|k: int| 0 <= k < p.elems().len() implies cs.binds(#[trigger] p.elems()[k]) by {
            if k > 0 {
                assert(p.elems()[k] == preimage@[k - 1]);
            }
        }
        if c0.computes() {
            assert(p.state() =~= seq![params.arity_tag.value()] + nums_of(preimage@));
            assert(p.mds() =~~= params.mds_values());
            let end = p.offset() + p.width_spec() * num_rounds(p.rf(), p.rp());
            if all_valued(preimage@) {
                assert forall|k: int| 0 <= k < p.elems().len() implies (#[trigger] p.elems()[k]).val() is Some by {
                    if k > 0 {
                        assert(p.elems()[k] == preimage@[k - 1]);
                    }
                }
                assert(p.valued_up_to(end));
            } else {
                let k = choose|k: int| 0 <= k < preimage@.len() && !((#[trigger] preimage@[k]).val() is Some);
                assert(p.elems()[k + 1] == preimage@[k]);
                assert(!p.valued_up_to(end));
            }
        }
    }
    let out = p.hash(cs);
    proof {
        lemma_extends_trans(c0, c3, *cs);
    }
    out
}

/// Determinism: preimages with the same values, hashed under the same
/// parameters, give the same digest and the same number of constraints,
/// whatever variables hold them.
pub proof fn lemma_hash_deterministic(p1: Seq<Num>, p2: Seq<Num>, params: PoseidonParams)
    requires
        nums_of(p1) == nums_of(p2),
    ensures
        permutation(
            seq![params.arity_tag.value()] + nums_of(p1),
            params.rc_values(),
            params.mds_values(),
            params.full_rounds as nat,
            params.partial_rounds as nat,
        )[1] == permutation(
            seq![params.arity_tag.value()] + nums_of(p2),
            params.rc_values(),
            params.mds_values(),
            params.full_rounds as nat,
            params.partial_rounds as nat,
        )[1],
        constraint_count(p1.len() + 1, params.full_rounds as nat, params.partial_rounds as nat)
            == constraint_count(p2.len() + 1, params.full_rounds as nat, params.partial_rounds as nat),
{
    assert(nums_of(p1).len() == p1.len());
    assert(nums_of(p2).len() == p2.len());
}

/// Constant consumption: with an even number of full rounds, a whole run
/// reads exactly `width * (full_rounds + partial_rounds)` round constants.
pub proof fn lemma_constants_consumed(width: nat, full_rounds: nat, partial_rounds: nat)
    requires
        full_rounds % 2 == 0,
    ensures
        width * num_rounds(full_rounds, partial_rounds) == width * (full_rounds + partial_rounds),
{
    assert(2 * (full_rounds / 2) == full_rounds);
}

/// Number of S-box applications in one run: `width` per full round and one
/// per partial round.
pub open spec fn sbox_applications(width: nat, full_rounds: nat, partial_rounds: nat) -> nat {
    2 * (full_rounds / 2) * width + partial_rounds
}

/// The constraints of a run are one addition per round constant read, three
/// multiplications per S-box application, and `width + 1` per matrix row in
/// every round.
pub proof fn lemma_constraint_breakdown(width: nat, full_rounds: nat, partial_rounds: nat)
    ensures
        constraint_count(width, full_rounds, partial_rounds) == width * num_rounds(full_rounds, partial_rounds)
            + 3 * sbox_applications(width, full_rounds, partial_rounds)
            + num_rounds(full_rounds, partial_rounds) * (width * (width + 1)),
{
    let h = full_rounds / 2;
    let p = partial_rounds;
    let w = width;
    assert(2 * h * (w + 3 * w + w * (w + 1)) + p * (w + 3 + w * (w + 1))
        == w * (2 * h + p) + 3 * (2 * h * w + p) + (2 * h + p) * (w * (w + 1))) by (nonlinear_arith);
}

} // verus!
