//! Elements of the BLS12-381 scalar field, held as canonical little-endian
//! 64-bit limbs, with arithmetic delegated to `paired`.
use fff::{Field, PrimeField};
use paired::bls12_381::{Fr, FrRepr};
use vstd::prelude::*;

verus! {

/// The order of the BLS12-381 scalar field.
pub open spec fn modulus() -> nat {
    limbs_value(seq![0xffffffff00000001u64, 0x53bda402fffe5bfe, 0x3339d80809a1d805, 0x73eda753299d7d48])
}

/// The radix of a limb.
pub open spec fn limb_base() -> nat {
    0x1_0000_0000_0000_0000
}

/// Addition in the field, on canonical representatives.
pub open spec fn fadd(a: nat, b: nat) -> nat {
    (a + b) % modulus()
}

/// Multiplication in the field, on canonical representatives.
pub open spec fn fmul(a: nat, b: nat) -> nat {
    (a * b) % modulus()
}

/// Value of four little-endian 64-bit limbs.
pub open spec fn limbs_value(l: Seq<u64>) -> nat {
    (l[0] + limb_base() * (l[1] + limb_base() * (l[2] + limb_base() * l[3]))) as nat
}

/// A field element in canonical form: the limbs hold a number below the modulus.
#[derive(Clone, Copy, Debug, PartialEq, Eq)]
pub struct Scalar {
    limbs: [u64; 4],
}

impl Scalar {
    /// The number this element stands for.
    pub closed spec fn value(&self) -> nat {
        limbs_value(self.limbs@)
    }

    /// The limbs hold a canonical representative.
    pub open spec fn wf(&self) -> bool {
        self.value() < modulus()
    }

    /// The additive identity.
    pub fn zero() -> (r: Scalar)
        ensures
            r.wf(),
            r.value() == 0,
    {
        let l: [u64; 4] = [0, 0, 0, 0];
        assert(l@ =~= seq![0u64, 0u64, 0u64, 0u64]);
        Scalar { limbs: l }
    }

    /// The multiplicative identity.
    pub fn one() -> (r: Scalar)
        ensures
            r.wf(),
            r.value() == 1,
    {
        Scalar::from_u64(1)
    }

    /// The element standing for a small integer.
    pub fn from_u64(v: u64) -> (r: Scalar)
        ensures
            r.wf(),
            r.value() == v,
    {
        let l: [u64; 4] = [v, 0, 0, 0];
        assert(l@ =~= seq![v, 0u64, 0u64, 0u64]);
        Scalar { limbs: l }
    }

    /// The element held by canonical little-endian limbs; `None` where they
    /// stand for a number that is not below the modulus.
    pub fn from_limbs(limbs: [u64; 4]) -> (r: Option<Scalar>)
        ensures
            r is Some <==> limbs_value(limbs@) < modulus(),
            r matches Some(s) ==> s.wf() && s.spec_limbs() == limbs && s.value() == limbs_value(limbs@),
    {
        fr_from_repr(limbs)
    }

    /// The canonical little-endian limbs.
    pub fn limbs(&self) -> (r: [u64; 4])
        ensures
            limbs_value(r@) == self.value(),
            r == self.spec_limbs(),
    {
        self.limbs
    }

    /// The limbs, as a specification value.
    pub closed spec fn spec_limbs(&self) -> [u64; 4] {
        self.limbs
    }
}

/// Relies on fff::PrimeField::from_repr for paired's BLS12-381 `Fr`: it accepts
/// exactly the representations below the modulus, and `into_repr` gives the
/// same limbs back.
#[verifier::external_body]
fn fr_from_repr(limbs: [u64; 4]) -> (r: Option<Scalar>)
    ensures
        r is Some <==> limbs_value(limbs@) < modulus(),
        r matches Some(s) ==> s.limbs == limbs,
{
    Fr::from_repr(FrRepr(limbs)).ok().map(|x| Scalar { limbs: x.into_repr().0 })
}

/// Relies on fff::Field::add_assign for paired's BLS12-381 `Fr`: addition
/// modulo the field's order. `from_repr` and `into_repr` move between the
/// canonical limbs and `Fr`.
#[verifier::external_body]
pub(crate) fn fr_add(a: &Scalar, b: &Scalar) -> (r: Scalar)
    requires
        a.wf(),
        b.wf(),
    ensures
        r.wf(),
        r.value() == fadd(a.value(), b.value()),
{
    let mut x = Fr::from_repr(FrRepr(a.limbs)).unwrap();
    x.add_assign(&Fr::from_repr(FrRepr(b.limbs)).unwrap());
    Scalar { limbs: x.into_repr().0 }
}

/// Relies on the `PartialEq` of paired's BLS12-381 `Fr`: two elements compare
/// equal exactly when they are the same element of the field.
#[verifier::external_body]
pub(crate) fn fr_eq(a: &Scalar, b: &Scalar) -> (r: bool)
    requires
        a.wf(),
        b.wf(),
    ensures
        r == (a.value() == b.value()),
{
    Fr::from_repr(FrRepr(a.limbs)).unwrap() == Fr::from_repr(FrRepr(b.limbs)).unwrap()
}

/// Relies on fff::Field::mul_assign for paired's BLS12-381 `Fr`:
/// multiplication modulo the field's order. `from_repr` and `into_repr` move
/// between the canonical limbs and `Fr`.
#[verifier::external_body]
pub(crate) fn fr_mul(a: &Scalar, b: &Scalar) -> (r: Scalar)
    requires
        a.wf(),
        b.wf(),
    ensures
        r.wf(),
        r.value() == fmul(a.value(), b.value()),
{
    let mut x = Fr::from_repr(FrRepr(a.limbs)).unwrap();
    x.mul_assign(&Fr::from_repr(FrRepr(b.limbs)).unwrap());
    Scalar { limbs: x.into_repr().0 }
}

} // verus!
