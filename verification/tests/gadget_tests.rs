//! Recorder-level behaviour of the gadgets: satisfaction of the circuits
//! they emit, and the shape properties the library proves.

use r1cs_gadgets::field::FieldElem;
use r1cs_gadgets::mimc::mimc;
use r1cs_gadgets::mimc::mimc_hash_2;
use r1cs_gadgets::mimc::MIMC_ROUNDS;
use r1cs_gadgets::r1cs::check_satisfied;
use r1cs_gadgets::r1cs::ConstraintRecorder;
use r1cs_gadgets::r1cs::LinComb;
use r1cs_gadgets::r1cs::Var;
use r1cs_gadgets::r1cs::Witness;
use r1cs_gadgets::r1cs_utils::chunk_gadget;
use r1cs_gadgets::r1cs_utils::constrain_lc_with_scalar;
use r1cs_gadgets::r1cs_utils::positive_no_gadget;
use r1cs_gadgets::r1cs_utils::AllocatedQuantity;

fn fe(x: u64) -> FieldElem {
    FieldElem::from_u64(x)
}

/// The recorder for a single range check of `v` to `n` bits.
fn range_recorder(assignment: Option<u64>, n: usize) -> ConstraintRecorder {
    let mut cs = ConstraintRecorder::new(1);
    let q = AllocatedQuantity { variable: Var::Committed(0), assignment };
    positive_no_gadget(&mut cs, q, n).unwrap();
    cs
}

/// A witness for the range circuit: the committed value and one gate per
/// bit, holding the given bit values.
fn range_witness(v: u64, bits: &[u64]) -> Witness {
    let mut mul_left = Vec::new();
    let mut mul_right = Vec::new();
    let mut mul_out = Vec::new();
    for &b in bits {
        mul_left.push(fe(1 - b));
        mul_right.push(fe(b));
        mul_out.push(FieldElem::zero());
    }
    Witness {
        committed: vec![fe(v)],
        allocated: Vec::new(),
        mul_left,
        mul_right,
        mul_out,
    }
}

#[test]
fn range_satisfied_exhaustively_for_small_values() {
    // Every v in [0, 2^4) satisfies its own range circuit under the
    // natural bit assignment.
    for v in 0u64..16 {
        let cs = range_recorder(Some(v), 4);
        let bits: Vec<u64> = (0..4).map(|i| (v >> i) & 1).collect();
        let w = range_witness(v, &bits);
        assert!(check_satisfied(&cs, &w));
    }
}

#[test]
fn range_rejected_exhaustively_for_large_values() {
    // No boolean assignment of the four bit gates satisfies the circuit
    // when the committed value is outside [0, 2^4).
    for v in 16u64..32 {
        let cs = range_recorder(Some(v), 4);
        for mask in 0u64..16 {
            let bits: Vec<u64> = (0..4).map(|i| (mask >> i) & 1).collect();
            let w = range_witness(v, &bits);
            assert!(!check_satisfied(&cs, &w));
        }
    }
}

#[test]
fn range_rejects_wrong_bit_vector() {
    // A bit vector reconstructing a different value fails.
    let cs = range_recorder(Some(5), 4);
    let bits = [0u64, 1, 1, 0];  // reconstructs 6, not 5
    let w = range_witness(5, &bits);
    assert!(!check_satisfied(&cs, &w));
}

#[test]
fn range_topology_same_with_and_without_assignment() {
    // Prover and verifier runs record the same number of operations and
    // allocate the same gates.
    let with = range_recorder(Some(9), 16);
    let without = range_recorder(None, 16);
    assert_eq!(with.num_ops(), without.num_ops());
    assert_eq!(with.n_mul, without.n_mul);
    assert_eq!(with.n_allocated, without.n_allocated);
    assert_eq!(with.num_ops(), 3 * 16 + 1);
    assert_eq!(with.n_mul, 16);
}

/// The recorder for one chunk reconstruction over five committed wires.
fn chunk_recorder() -> ConstraintRecorder {
    let mut cs = ConstraintRecorder::new(5);
    let q = |i: usize| AllocatedQuantity { variable: Var::Committed(i), assignment: None };
    chunk_gadget(&mut cs, q(0), q(1), q(2), q(3), q(4)).unwrap();
    cs
}

fn chunk_witness(u: u64, v: u64, x: u64, y: u64, z: u64) -> Witness {
    Witness {
        committed: vec![fe(u), fe(v), fe(x), fe(y), fe(z)],
        allocated: Vec::new(),
        mul_left: Vec::new(),
        mul_right: Vec::new(),
        mul_out: Vec::new(),
    }
}

#[test]
fn chunk_round_trip_satisfied() {
    // For 16-bit chunks, the composed value satisfies the constraint.
    let cases: [(u64, u64, u64, u64); 4] = [
        (0, 0, 0, 0),
        (1, 2, 3, 4),
        (0xffff, 0xffff, 0xffff, 0xffff),
        (0x1234, 0, 0xcafe, 0x0042),
    ];
    for (u, v, x, y) in cases {
        let z = u + (v << 16) + (x << 32) + (y << 48);
        let cs = chunk_recorder();
        let w = chunk_witness(u, v, x, y, z);
        assert!(check_satisfied(&cs, &w));
    }
}

#[test]
fn chunk_mutation_rejected() {
    // Changing any single chunk by one, without updating z, violates the
    // constraint.
    let (u, v, x, y) = (7u64, 11u64, 13u64, 17u64);
    let z = u + (v << 16) + (x << 32) + (y << 48);
    let cs = chunk_recorder();
    assert!(check_satisfied(&cs, &chunk_witness(u, v, x, y, z)));
    assert!(!check_satisfied(&cs, &chunk_witness(u + 1, v, x, y, z)));
    assert!(!check_satisfied(&cs, &chunk_witness(u, v + 1, x, y, z)));
    assert!(!check_satisfied(&cs, &chunk_witness(u, v, x + 1, y, z)));
    assert!(!check_satisfied(&cs, &chunk_witness(u, v, x, y + 1, z)));
    assert!(!check_satisfied(&cs, &chunk_witness(u, v, x, y, z + 1)));
}

#[test]
fn constrain_lc_with_scalar_satisfaction() {
    // v0 + v1 == 10 is satisfied by (3, 7) and violated by (3, 8).
    let build = || {
        let mut cs = ConstraintRecorder::new(2);
        let mut lc = LinComb::from_term(Var::Committed(0), fe(1));
        lc.push_term(Var::Committed(1), fe(1));
        constrain_lc_with_scalar(&mut cs, lc, &fe(10)).unwrap();
        cs
    };
    let witness = |a: u64, b: u64| Witness {
        committed: vec![fe(a), fe(b)],
        allocated: Vec::new(),
        mul_left: Vec::new(),
        mul_right: Vec::new(),
        mul_out: Vec::new(),
    };
    assert!(check_satisfied(&build(), &witness(3, 7)));
    assert!(!check_satisfied(&build(), &witness(3, 8)));
}

#[test]
fn mimc_plain_hash_deterministic() {
    // The out-of-circuit hash is a pure function: equal inputs, equal
    // image; and it has a fixed exact value on a known input.
    let constants: Vec<FieldElem> = (0..MIMC_ROUNDS as u64).map(|i| fe(i + 1)).collect();
    let a = mimc(&fe(7), &fe(11), &constants);
    let b = mimc(&fe(7), &fe(11), &constants);
    assert_eq!(a, b);
    let c = mimc(&fe(8), &fe(11), &constants);
    assert_ne!(a, c);
}

#[test]
fn mimc_gadget_two_gates_per_round_and_deterministic() {
    // The circuit hash allocates exactly two multiplication gates per
    // round, and two runs from the same inputs record identical
    // operations and return identical output combinations.
    let rounds = 10usize;
    let constants: Vec<FieldElem> = (0..rounds as u64).map(|i| fe(i * i + 3)).collect();
    let run = || {
        let mut cs = ConstraintRecorder::new(2);
        let left = LinComb::from_term(Var::Committed(0), fe(1));
        let right = LinComb::from_term(Var::Committed(1), fe(1));
        let out = mimc_hash_2(&mut cs, left, right, rounds, &constants).unwrap();
        (cs, out)
    };
    let (cs1, out1) = run();
    let (cs2, out2) = run();
    assert_eq!(cs1.n_mul, 2 * rounds);
    assert_eq!(cs1.num_ops(), 2 * rounds);
    assert_eq!(cs1.num_ops(), cs2.num_ops());
    assert_eq!(out1.terms, out2.terms);
}
