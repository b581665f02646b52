use bellperson::gadgets::test::TestConstraintSystem;
use bellperson::{ConstraintSystem as BellpersonCs, SynthesisError as BellpersonError, Variable};
use fff::PrimeField;
use paired::bls12_381::{Bls12, Fr, FrRepr};
use poseidon_circuit::circuit::{poseidon_hash, PoseidonParams};
use poseidon_circuit::cs::{Constraint, ConstraintSystem};
use poseidon_circuit::field::Scalar;

fn fr_of(s: &Scalar) -> Fr {
    Fr::from_repr(FrRepr(s.limbs())).unwrap()
}

fn replay<CS: BellpersonCs<Bls12>>(recorded: &ConstraintSystem, cs: &mut CS) -> Result<(), BellpersonError> {
    let mut vars: Vec<Variable> = vec![CS::one()];
    for i in 1..recorded.num_variables() {
        let value = recorded.value(i);
        let var = cs.alloc(
            || format!("variable {}", i),
            || value.as_ref().map(fr_of).ok_or(BellpersonError::AssignmentMissing),
        )?;
        vars.push(var);
    }
    for i in 0..recorded.num_constraints() {
        let c = recorded.constraint(i);
        cs.enforce(
            || format!("constraint {}", i),
            |lc| c.a.iter().fold(lc, |acc, v| acc + vars[*v]),
            |lc| c.b.iter().fold(lc, |acc, v| acc + vars[*v]),
            |lc| c.c.iter().fold(lc, |acc, v| acc + vars[*v]),
        );
    }
    Ok(())
}

fn params() -> PoseidonParams {
    let width = 3;
    let mds = (0..width)
        .map(|j| (0..width).map(|k| Scalar::from_u64((j * width + k) as u64 + 1)).collect())
        .collect();
    let round_constants = (0..width * 63).map(|i| Scalar::from_u64(i as u64 * 31 + 17)).collect();
    PoseidonParams {
        mds,
        round_constants,
        arity_tag: Scalar::from_u64(3),
        full_rounds: 8,
        partial_rounds: 55,
    }
}

#[test]
fn replayed_hash_satisfies_bellperson() {
    let mut cs = ConstraintSystem::new();
    let data = vec![
        cs.alloc_num(Some(Scalar::from_u64(123))),
        cs.alloc_num(Some(Scalar::from_u64(456))),
    ];
    poseidon_hash(&mut cs, data, &params()).unwrap();
    let mut test_cs = TestConstraintSystem::<Bls12>::new();
    replay(&cs, &mut test_cs).unwrap();
    assert!(test_cs.is_satisfied());
    assert_eq!(test_cs.num_constraints(), 1182);
}

#[test]
fn replayed_violation_is_seen_by_bellperson() {
    let mut cs = ConstraintSystem::new();
    let a = cs.alloc_num(Some(Scalar::from_u64(2)));
    let b = cs.alloc_num(Some(Scalar::from_u64(3)));
    let c = cs.alloc_num(Some(Scalar::from_u64(5)));
    cs.enforce(Constraint {
        a: vec![a.get_variable()],
        b: vec![b.get_variable()],
        c: vec![c.get_variable()],
    });
    assert!(!cs.is_satisfied());
    let mut test_cs = TestConstraintSystem::<Bls12>::new();
    replay(&cs, &mut test_cs).unwrap();
    assert!(!test_cs.is_satisfied());
}
