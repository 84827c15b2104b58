//! End-to-end proofs through the bulletproofs backend: the recorded
//! circuits are replayed against a real prover and verifier.

use rand::rngs::OsRng;
use rand::Rng;

use r1cs_gadgets::field::FieldElem;
use r1cs_gadgets::gadget_chunk_proof::chunk_proof_helper;
use r1cs_gadgets::gadget_range_proof::range_proof_helper;
use r1cs_gadgets::mimc::mimc;
use r1cs_gadgets::mimc::mimc_proof_helper;
use r1cs_gadgets::mimc::MIMC_ROUNDS;

#[test]
fn test_range_proof_gadget() {
    let mut rng = OsRng;
    let min = 0;
    let max = (1u128 << 64 - 1) as u64;

    let v = rng.gen_range(min..max);
    println!("v is {}", &v);
    assert!(range_proof_helper(v, min, max).is_ok());
}

#[test]
fn test_chunk_proof_gadget() {
    let mut rng = OsRng;
    let max = 1 << 16;

    let v0 = rng.gen_range(0..max);
    let v1 = rng.gen_range(0..max);
    let v2 = rng.gen_range(0..max);
    let v3 = rng.gen_range(0..max);
    let v = v0 + (v1 << 16) + (v2 << 32) + (v3 << 48);

    println!("v is {}", &v);
    assert!(chunk_proof_helper(v, v0, v1, v2, v3).is_ok());
}

fn fixed_constants() -> Vec<FieldElem> {
    (0..MIMC_ROUNDS as u64)
        .map(|i| FieldElem::from_u64(i.wrapping_mul(0x9e3779b9).wrapping_add(1)))
        .collect()
}

#[test]
fn test_mimc_preimage_proof_verifies() {
    // Commit two secret 32-bit values, run the full round count, and
    // verify the proof against the independently computed image.
    let xl = FieldElem::from_u64(7);
    let xr = FieldElem::from_u64(11);
    let constants = fixed_constants();
    let image = mimc(&xl, &xr, &constants);
    assert!(mimc_proof_helper(&xl, &xr, &constants, &image).is_ok());
}

#[test]
fn test_mimc_proof_rejects_altered_constant() {
    // The same proof attempt fails verification when a single round
    // constant differs between the two sides' images.
    let xl = FieldElem::from_u64(7);
    let xr = FieldElem::from_u64(11);
    let constants = fixed_constants();
    let image = mimc(&xl, &xr, &constants);
    let mut altered = fixed_constants();
    altered[100] = altered[100].add_mod(&FieldElem::one());
    // The image no longer matches the circuit built from the altered
    // constants, so the proof cannot verify.
    assert!(mimc_proof_helper(&xl, &xr, &altered, &image).is_err());
}
