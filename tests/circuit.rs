use fff::{Field, PrimeField};
use paired::bls12_381::{Fr, FrRepr};
use poseidon_circuit::circuit::{poseidon_hash, PoseidonCircuit, PoseidonParams};
use poseidon_circuit::cs::{Constraint, ConstraintSystem, Num, SynthesisError};
use poseidon_circuit::field::Scalar;
use poseidon_circuit::gadgets::{add, multi_add, multi_sum, quintic_s_box, sum};
use rand::SeedableRng;
use rand_xorshift::XorShiftRng;

const TEST_SEED: [u8; 16] = [
    0x59, 0x62, 0xbe, 0x5d, 0x76, 0x3d, 0x31, 0x8d, 0x17, 0xdb, 0x37, 0x32, 0x54, 0x06, 0xbc, 0xe5,
];
const ARITY: usize = 2;
const WIDTH: usize = ARITY + 1;
const FULL_ROUNDS: usize = 8;
const PARTIAL_ROUNDS: usize = 55;

fn to_fr(s: &Scalar) -> Fr {
    Fr::from_repr(FrRepr(s.limbs())).unwrap()
}

fn to_scalar(f: &Fr) -> Scalar {
    Scalar::from_limbs(f.into_repr().0).unwrap()
}

/// Parameters with a fixed, arbitrary matrix and constants.
fn test_params() -> PoseidonParams {
    let mut mds = Vec::new();
    for j in 0..WIDTH {
        let mut row = Vec::new();
        for k in 0..WIDTH {
            row.push(Scalar::from_u64((j * WIDTH + k) as u64 * 7 + 3));
        }
        mds.push(row);
    }
    let mut round_constants = Vec::new();
    for i in 0..WIDTH * (FULL_ROUNDS + PARTIAL_ROUNDS) {
        round_constants.push(Scalar::from_u64(0x1234_5678_9abc_def0 ^ (i as u64 * 0x9e37_79b9)));
    }
    PoseidonParams {
        mds,
        round_constants,
        arity_tag: Scalar::from_u64((1u64 << ARITY) - 1),
        full_rounds: FULL_ROUNDS,
        partial_rounds: PARTIAL_ROUNDS,
    }
}

fn quintic(x: &Fr) -> Fr {
    let mut r = *x;
    r.square();
    r.square();
    r.mul_assign(x);
    r
}

/// The permutation computed directly on field elements.
fn native_poseidon(params: &PoseidonParams, input: &[Fr]) -> Fr {
    let mut state = vec![to_fr(&params.arity_tag)];
    state.extend_from_slice(input);
    let rc: Vec<Fr> = params.round_constants.iter().map(to_fr).collect();
    let mds: Vec<Vec<Fr>> = params.mds.iter().map(|r| r.iter().map(to_fr).collect()).collect();
    let mut offset = 0;
    let half = params.full_rounds / 2;
    for round in 0..(2 * half + params.partial_rounds) {
        for s in state.iter_mut() {
            s.add_assign(&rc[offset]);
            offset += 1;
        }
        if round < half || round >= half + params.partial_rounds {
            for s in state.iter_mut() {
                *s = quintic(s);
            }
        } else {
            state[0] = quintic(&state[0]);
        }
        let mut next = Vec::new();
        for row in mds.iter() {
            let mut acc = Fr::zero();
            for (m, s) in row.iter().zip(state.iter()) {
                let mut p = *m;
                p.mul_assign(s);
                acc.add_assign(&p);
            }
            next.push(acc);
        }
        state = next;
    }
    state[1]
}

fn alloc_u64(cs: &mut ConstraintSystem, v: u64) -> Num {
    cs.alloc_num(Some(Scalar::from_u64(v)))
}

#[test]
fn test_poseidon_hash() {
    let mut rng = XorShiftRng::from_seed(TEST_SEED);
    let cases = [(2, 1182)];
    let params = test_params();

    for (arity, constraints) in &cases {
        if *arity != ARITY {
            continue;
        }
        let mut cs = ConstraintSystem::new();
        let mut fr_data = [Fr::zero(); ARITY];
        let mut data: Vec<Num> = Vec::new();
        for i in 0..ARITY {
            let fr = Fr::random(&mut rng);
            fr_data[i] = fr;
            data.push(cs.alloc_num(Some(to_scalar(&fr))));
        }

        let out = poseidon_hash(&mut cs, data, &params).expect("poseidon hashing failed");

        assert!(cs.is_satisfied(), "constraints not satisfied");
        assert_eq!(cs.num_constraints(), *constraints, "constraint size changed");

        let expected = native_poseidon(&params, &fr_data);
        assert_eq!(
            expected,
            to_fr(&out.get_value().unwrap()),
            "circuit and non-circuit do not match"
        );
    }
}

#[test]
fn hash_is_deterministic() {
    let params = test_params();
    let mut outputs = Vec::new();
    for _ in 0..2 {
        let mut cs = ConstraintSystem::new();
        let data = vec![alloc_u64(&mut cs, 11), alloc_u64(&mut cs, 22)];
        let out = poseidon_hash(&mut cs, data, &params).unwrap();
        outputs.push((out.get_value().unwrap().limbs(), cs.num_constraints()));
    }
    assert_eq!(outputs[0], outputs[1]);
}

#[test]
fn hash_depends_on_input() {
    let params = test_params();
    let mut cs = ConstraintSystem::new();
    let a = vec![alloc_u64(&mut cs, 1), alloc_u64(&mut cs, 2)];
    let b = vec![alloc_u64(&mut cs, 2), alloc_u64(&mut cs, 1)];
    let ha = poseidon_hash(&mut cs, a, &params).unwrap().get_value().unwrap();
    let hb = poseidon_hash(&mut cs, b, &params).unwrap().get_value().unwrap();
    assert_ne!(ha, hb);
    assert!(cs.is_satisfied());
    assert_eq!(cs.num_constraints(), 2 * 1182);
}

#[test]
fn shape_only_hash_has_same_count_and_no_values() {
    let params = test_params();
    let mut cs = ConstraintSystem::new_shape_only();
    let data = vec![cs.alloc_num(None), cs.alloc_num(None)];
    let out = poseidon_hash(&mut cs, data, &params).unwrap();
    assert_eq!(out.get_value(), None);
    assert_eq!(cs.num_constraints(), 1182);
    assert!(!cs.is_satisfied());
}

#[test]
fn missing_witness_is_an_error() {
    let mut cs = ConstraintSystem::new();
    let known = alloc_u64(&mut cs, 7);
    let unknown = cs.alloc_num(None);
    assert_eq!(unknown.get_value(), None);
    assert_eq!(add(&mut cs, &known, &unknown).unwrap_err(), SynthesisError::AssignmentMissing);
    assert_eq!(multi_add(&mut cs, &[known, unknown]).unwrap_err(), SynthesisError::AssignmentMissing);
    assert_eq!(known.mul(&mut cs, &unknown).unwrap_err(), SynthesisError::AssignmentMissing);
    assert_eq!(quintic_s_box(&mut cs, &unknown).unwrap_err(), SynthesisError::AssignmentMissing);
    assert_eq!(cs.num_constraints(), 0);
    assert_eq!(cs.num_variables(), 3);
}

#[test]
fn hash_with_missing_input_is_an_error() {
    let params = test_params();
    let mut cs = ConstraintSystem::new();
    let data = vec![alloc_u64(&mut cs, 1), cs.alloc_num(None)];
    let err = poseidon_hash(&mut cs, data, &params).unwrap_err();
    assert_eq!(err, SynthesisError::AssignmentMissing);
    assert_eq!(cs.num_constraints(), 0);
    assert!(cs.is_satisfied());
}

#[test]
fn constants_cursor_is_exhausted() {
    let params = test_params();
    let mut cs = ConstraintSystem::new();
    let mut elements = vec![alloc_u64(&mut cs, 3), alloc_u64(&mut cs, 5), alloc_u64(&mut cs, 8)];
    let mut matrix = Vec::new();
    for row in params.mds.iter() {
        matrix.push(row.iter().map(|s| cs.alloc_num(Some(*s))).collect::<Vec<_>>());
    }
    let rc: Vec<Num> = params.round_constants.iter().map(|s| cs.alloc_num(Some(*s))).collect();
    elements.truncate(WIDTH);
    let first_vars: Vec<usize> = elements.iter().map(|n| n.get_variable()).collect();
    let rc_vars: Vec<usize> = rc.iter().map(|n| n.get_variable()).collect();
    let m00 = matrix[0][0].get_variable();
    let before = cs.num_variables();
    let mut p = PoseidonCircuit::new(elements, matrix, rc, FULL_ROUNDS, PARTIAL_ROUNDS);
    assert_eq!(p.constants_offset(), 0);
    let out = p.hash(&mut cs).unwrap();
    assert_eq!(p.constants_offset(), WIDTH * (FULL_ROUNDS + PARTIAL_ROUNDS));
    assert_eq!(p.elements()[1].get_variable(), out.get_variable());
    assert_eq!(cs.num_constraints(), 1182);
    // the first round: constant additions, then S-boxes, then the matrix
    for i in 0..WIDTH {
        assert_eq!(cs.constraint(i).a, vec![first_vars[i], rc_vars[i]]);
        assert_eq!(cs.constraint(i).c, vec![before + i]);
    }
    let sbox = cs.constraint(WIDTH);
    assert_eq!((sbox.a.clone(), sbox.b.clone(), sbox.c.clone()), (vec![before], vec![before], vec![before + WIDTH]));
    let mds = cs.constraint(WIDTH + 3 * WIDTH);
    assert_eq!(mds.a, vec![m00]);
    assert_eq!(mds.b, vec![before + WIDTH + 2]);
    assert!(cs.is_satisfied());
}

#[test]
fn add_binds_sum_with_one_constraint() {
    let mut cs = ConstraintSystem::new();
    let a = alloc_u64(&mut cs, 2);
    let b = alloc_u64(&mut cs, 40);
    let c = add(&mut cs, &a, &b).unwrap();
    assert_eq!(c.get_value(), Some(Scalar::from_u64(42)));
    assert_eq!(cs.num_constraints(), 1);
    let k = cs.constraint(0);
    assert_eq!(k.a, vec![a.get_variable(), b.get_variable()]);
    assert_eq!(k.b, vec![cs.one()]);
    assert_eq!(k.c, vec![c.get_variable()]);
    assert!(cs.is_satisfied());
}

#[test]
fn add_wraps_at_the_modulus() {
    // p - 1, the largest element
    let p_minus_one = Scalar::from_limbs([
        0xffffffff00000000,
        0x53bda402fffe5bfe,
        0x3339d80809a1d805,
        0x73eda753299d7d48,
    ])
    .unwrap();
    let mut cs = ConstraintSystem::new();
    let a = cs.alloc_num(Some(p_minus_one));
    let b = alloc_u64(&mut cs, 3);
    let c = add(&mut cs, &a, &b).unwrap();
    assert_eq!(c.get_value(), Some(Scalar::from_u64(2)));
    assert!(cs.is_satisfied());
}

#[test]
fn from_limbs_rejects_non_canonical() {
    let modulus = [
        0xffffffff00000001,
        0x53bda402fffe5bfe,
        0x3339d80809a1d805,
        0x73eda753299d7d48,
    ];
    assert!(Scalar::from_limbs(modulus).is_none());
    assert!(Scalar::from_limbs([u64::MAX; 4]).is_none());
    assert_eq!(Scalar::from_limbs([5, 0, 0, 0]), Some(Scalar::from_u64(5)));
}

#[test]
fn multi_add_sums_all_terms_with_one_constraint() {
    let mut cs = ConstraintSystem::new();
    let nums = vec![alloc_u64(&mut cs, 1), alloc_u64(&mut cs, 2), alloc_u64(&mut cs, 3), alloc_u64(&mut cs, 4)];
    let s = multi_add(&mut cs, &nums).unwrap();
    assert_eq!(s.get_value(), Some(Scalar::from_u64(10)));
    assert_eq!(cs.num_constraints(), 1);
    assert_eq!(cs.constraint(0).a.len(), 4);
    assert!(cs.is_satisfied());
}

#[test]
fn multi_add_of_nothing_is_zero() {
    let mut cs = ConstraintSystem::new();
    let s = multi_add(&mut cs, &[]).unwrap();
    assert_eq!(s.get_value(), Some(Scalar::zero()));
    assert_eq!(cs.num_constraints(), 1);
    assert!(cs.is_satisfied());
}

#[test]
fn sum_and_multi_sum_register_one_constraint_each() {
    let mut cs = ConstraintSystem::new();
    let a = alloc_u64(&mut cs, 5);
    let b = alloc_u64(&mut cs, 6);
    let c = alloc_u64(&mut cs, 11);
    sum(&mut cs, &a, &b, &c);
    multi_sum(&mut cs, &[a, b], &c);
    assert_eq!(cs.num_constraints(), 2);
    assert_eq!(cs.constraint(1).a, vec![a.get_variable(), b.get_variable()]);
    assert!(cs.is_satisfied());
}

#[test]
fn mul_and_square_values() {
    let mut cs = ConstraintSystem::new();
    let a = alloc_u64(&mut cs, 6);
    let b = alloc_u64(&mut cs, 7);
    let c = a.mul(&mut cs, &b).unwrap();
    let d = a.square(&mut cs).unwrap();
    assert_eq!(c.get_value(), Some(Scalar::from_u64(42)));
    assert_eq!(d.get_value(), Some(Scalar::from_u64(36)));
    assert_eq!(cs.num_constraints(), 2);
    assert!(cs.is_satisfied());
}

#[test]
fn s_box_costs_three_constraints() {
    let mut cs = ConstraintSystem::new();
    let x = alloc_u64(&mut cs, 3);
    let y = quintic_s_box(&mut cs, &x).unwrap();
    assert_eq!(y.get_value(), Some(Scalar::from_u64(243)));
    assert_eq!(cs.num_constraints(), 3);
    for i in 0..3 {
        let k = cs.constraint(i);
        assert_eq!((k.a.len(), k.b.len(), k.c.len()), (1, 1, 1));
    }
    assert!(cs.is_satisfied());

    let mut shape = ConstraintSystem::new_shape_only();
    let x = shape.alloc_num(None);
    quintic_s_box(&mut shape, &x).unwrap();
    assert_eq!(shape.num_constraints(), 3);
}

#[test]
fn sum_registers_a_wrong_total_that_does_not_hold() {
    let mut cs = ConstraintSystem::new();
    let a = alloc_u64(&mut cs, 2);
    let b = alloc_u64(&mut cs, 3);
    let c = alloc_u64(&mut cs, 6);
    sum(&mut cs, &a, &b, &c);
    assert_eq!(cs.num_constraints(), 1);
    assert_eq!(cs.num_variables(), 4);
    assert!(!cs.is_satisfied());
}

#[test]
fn violated_constraint_is_detected() {
    let mut cs = ConstraintSystem::new();
    let a = alloc_u64(&mut cs, 2);
    let b = alloc_u64(&mut cs, 3);
    let c = alloc_u64(&mut cs, 5);
    assert!(cs.is_satisfied());
    cs.enforce(Constraint {
        a: vec![a.get_variable()],
        b: vec![b.get_variable()],
        c: vec![c.get_variable()],
    });
    assert!(!cs.is_satisfied());
}
