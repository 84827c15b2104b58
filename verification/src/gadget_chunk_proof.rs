//! Chunk proof over the R1CS interface: a committed 64-bit value is
//! certified as the radix-`2^16` composition of four committed 16-bit
//! chunks, each separately range-checked, as prover and verifier of the
//! same circuit.

use vstd::prelude::*;

verus! {

use crate::field::FieldElem;
use crate::r1cs::Var;
use crate::r1cs::ConstraintRecorder;
use crate::r1cs::OpV;
use crate::r1cs::shapes;
use crate::r1cs::lemma_shapes_append;
use crate::r1cs_utils::AllocatedQuantity;
use crate::r1cs_utils::positive_no_gadget;
use crate::r1cs_utils::chunk_gadget;
use crate::r1cs_utils::range_ops;
use crate::r1cs_utils::chunk_ops;
use crate::r1cs_utils::lemma_range_topology;
use crate::backend::new_transcript;
use crate::backend::new_pedersen_gens;
use crate::backend::new_bulletproof_gens;
use crate::backend::new_prover;
use crate::backend::new_verifier;
use crate::backend::new_thread_rng;
use crate::backend::random_scalar;
use crate::backend::scalar_from_fe;
use crate::backend::prover_commit;
use crate::backend::prover_prove;
use crate::backend::verifier_commit;
use crate::backend::verifier_verify;
use crate::backend::replay_prover;
use crate::backend::replay_verifier;
use crate::GadgetError;

/// The operations of the whole chunk circuit: a 16-bit range check per
/// chunk, then the reconstruction constraint over all five wires.
pub open spec fn chunk_circuit_ops(
    v0: Option<u64>,
    v1: Option<u64>,
    v2: Option<u64>,
    v3: Option<u64>,
) -> Seq<OpV> {
    range_ops(Var::Committed(0), v0, 16, 0) + range_ops(Var::Committed(1), v1, 16, 16)
        + range_ops(Var::Committed(2), v2, 16, 32) + range_ops(
        Var::Committed(3),
        v3,
        16,
        48,
    ) + chunk_ops(
        Var::Committed(0),
        Var::Committed(1),
        Var::Committed(2),
        Var::Committed(3),
        Var::Committed(4),
    )
}

/// Prover/verifier topology equality for the whole chunk circuit: its
/// shape does not depend on whether the chunks' assignments are present.
pub proof fn lemma_chunk_circuit_topology(
    a0: Option<u64>,
    a1: Option<u64>,
    a2: Option<u64>,
    a3: Option<u64>,
    b0: Option<u64>,
    b1: Option<u64>,
    b2: Option<u64>,
    b3: Option<u64>,
)
    ensures
        shapes(chunk_circuit_ops(a0, a1, a2, a3)) =~~= shapes(
            chunk_circuit_ops(b0, b1, b2, b3),
        ),
{
    lemma_range_topology(Var::Committed(0), a0, b0, 16, 0);
    lemma_range_topology(Var::Committed(1), a1, b1, 16, 16);
    lemma_range_topology(Var::Committed(2), a2, b2, 16, 32);
    lemma_range_topology(Var::Committed(3), a3, b3, 16, 48);
    let tail = chunk_ops(
        Var::Committed(0),
        Var::Committed(1),
        Var::Committed(2),
        Var::Committed(3),
        Var::Committed(4),
    );
    let pa1 = range_ops(Var::Committed(0), a0, 16, 0);
    let pa2 = pa1 + range_ops(Var::Committed(1), a1, 16, 16);
    let pa3 = pa2 + range_ops(Var::Committed(2), a2, 16, 32);
    let pa4 = pa3 + range_ops(Var::Committed(3), a3, 16, 48);
    let pb1 = range_ops(Var::Committed(0), b0, 16, 0);
    let pb2 = pb1 + range_ops(Var::Committed(1), b1, 16, 16);
    let pb3 = pb2 + range_ops(Var::Committed(2), b2, 16, 32);
    let pb4 = pb3 + range_ops(Var::Committed(3), b3, 16, 48);
    lemma_shapes_append(pa1, range_ops(Var::Committed(1), a1, 16, 16));
    lemma_shapes_append(pb1, range_ops(Var::Committed(1), b1, 16, 16));
    lemma_shapes_append(pa2, range_ops(Var::Committed(2), a2, 16, 32));
    lemma_shapes_append(pb2, range_ops(Var::Committed(2), b2, 16, 32));
    lemma_shapes_append(pa3, range_ops(Var::Committed(3), a3, 16, 48));
    lemma_shapes_append(pb3, range_ops(Var::Committed(3), b3, 16, 48));
    lemma_shapes_append(pa4, tail);
    lemma_shapes_append(pb4, tail);
}

/// Records the chunk circuit against a fresh recorder: 16-bit range checks
/// on the four chunks, then the reconstruction constraint against the
/// composed value.
fn record_chunk_circuit(
    v0: Option<u64>,
    v1: Option<u64>,
    v2: Option<u64>,
    v3: Option<u64>,
    vz: Option<u64>,
) -> (r: Result<ConstraintRecorder, GadgetError>)
    ensures
        r matches Ok(cs) ==> cs.wf() && cs.n_committed == 5 && cs.ops_spec()
            =~~= chunk_circuit_ops(v0, v1, v2, v3),
{
    let mut cs = ConstraintRecorder::new(5);
    let q0 = AllocatedQuantity { variable: Var::Committed(0), assignment: v0 };
    match positive_no_gadget(&mut cs, q0, 16) {
        Ok(()) => {},
        Err(e) => {
            return Err(e);
        },
    }
    let q1 = AllocatedQuantity { variable: Var::Committed(1), assignment: v1 };
    match positive_no_gadget(&mut cs, q1, 16) {
        Ok(()) => {},
        Err(e) => {
            return Err(e);
        },
    }
    let q2 = AllocatedQuantity { variable: Var::Committed(2), assignment: v2 };
    match positive_no_gadget(&mut cs, q2, 16) {
        Ok(()) => {},
        Err(e) => {
            return Err(e);
        },
    }
    let q3 = AllocatedQuantity { variable: Var::Committed(3), assignment: v3 };
    match positive_no_gadget(&mut cs, q3, 16) {
        Ok(()) => {},
        Err(e) => {
            return Err(e);
        },
    }
    let qz = AllocatedQuantity { variable: Var::Committed(4), assignment: vz };
    let q0b = AllocatedQuantity { variable: Var::Committed(0), assignment: v0 };
    let q1b = AllocatedQuantity { variable: Var::Committed(1), assignment: v1 };
    let q2b = AllocatedQuantity { variable: Var::Committed(2), assignment: v2 };
    let q3b = AllocatedQuantity { variable: Var::Committed(3), assignment: v3 };
    match chunk_gadget(&mut cs, q0b, q1b, q2b, q3b, qz) {
        Ok(()) => {},
        Err(e) => {
            return Err(e);
        },
    }
    proof {
        assert(cs.ops_spec() =~~= chunk_circuit_ops(v0, v1, v2, v3));
    }
    Ok(cs)
}

/// Proves and verifies that committed `v` equals
/// `v0 + v1*2^16 + v2*2^32 + v3*2^48` with each chunk in `[0, 2^16)`.
pub fn chunk_proof_helper(v: u64, v0: u64, v1: u64, v2: u64, v3: u64) -> (r: Result<
    (),
    GadgetError,
>)
    ensures
        r matches Err(e) ==> (e == GadgetError::AllocationFailure || e
            == GadgetError::ProofConstructionFailure || e
            == GadgetError::ProofVerificationFailure),
{
    let pc_gens = new_pedersen_gens();
    let bp_gens = new_bulletproof_gens(128, 1);

    // Prover's scope.
    let transcript = new_transcript("BoundsTest");
    let mut prover = new_prover(&pc_gens, transcript);
    let mut rng = new_thread_rng();
    let mut committed: Vec<bulletproofs::r1cs::Variable> = Vec::new();
    let mut coms: Vec<curve25519_dalek_ng::ristretto::CompressedRistretto> = Vec::new();
    let values: [u64; 5] = [v0, v1, v2, v3, v];
    let mut idx: usize = 0;
    while idx < 5
        invariant
            committed@.len() == idx,
            coms@.len() == idx,
            idx <= 5,
        decreases 5 - idx,
    {
        let blind = random_scalar(&mut rng);
        let (com, var) = prover_commit(
            &mut prover,
            scalar_from_fe(&FieldElem::from_u64(values[idx])),
            blind,
        );
        coms.push(com);
        committed.push(var);
        idx = idx + 1;
    }
    let cs = match record_chunk_circuit(Some(v0), Some(v1), Some(v2), Some(v3), Some(v)) {
        Ok(cs) => cs,
        Err(_) => {
            return Err(GadgetError::AllocationFailure);
        },
    };
    match replay_prover(&cs, &mut prover, &committed) {
        Ok(()) => {},
        Err(e) => {
            return Err(e);
        },
    }
    let proof = match prover_prove(prover, &bp_gens) {
        Ok(p) => p,
        Err(_) => {
            return Err(GadgetError::ProofConstructionFailure);
        },
    };

    // Verifier's scope.
    let transcript2 = new_transcript("BoundsTest");
    let mut verifier = new_verifier(transcript2);
    let mut vcommitted: Vec<bulletproofs::r1cs::Variable> = Vec::new();
    let mut idx2: usize = 0;
    while idx2 < coms.len()
        invariant
            vcommitted@.len() == idx2,
            idx2 <= coms@.len(),
        decreases coms@.len() - idx2,
    {
        let var = verifier_commit(&mut verifier, coms[idx2]);
        vcommitted.push(var);
        idx2 = idx2 + 1;
    }
    if vcommitted.len() != 5 {
        return Err(GadgetError::AllocationFailure);
    }
    let vcs = match record_chunk_circuit(None, None, None, None, None) {
        Ok(cs) => cs,
        Err(_) => {
            return Err(GadgetError::AllocationFailure);
        },
    };
    match replay_verifier(&vcs, &mut verifier, &vcommitted) {
        Ok(()) => {},
        Err(e) => {
            return Err(e);
        },
    }
    match verifier_verify(verifier, &proof, &pc_gens, &bp_gens) {
        Ok(()) => Ok(()),
        Err(_) => Err(GadgetError::ProofVerificationFailure),
    }
}

} // verus!
