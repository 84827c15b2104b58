//! Range proof over the R1CS interface: a caller proves that a committed
//! value lies in `[min, max]` by range-checking the two differences
//! `v - min` and `max - v` and tying them together with one linear
//! constraint, as prover and verifier of the same circuit.

use vstd::prelude::*;

verus! {

use crate::field::FieldElem;
use crate::field::lemma_group_order_bounds;
use crate::r1cs::Var;
use crate::r1cs::LinComb;
use crate::r1cs::ConstraintRecorder;
use crate::r1cs::term_wf;
use crate::r1cs::OpV;
use crate::r1cs::shapes;
use crate::r1cs::lemma_shapes_append;
use crate::r1cs_utils::AllocatedQuantity;
use crate::r1cs_utils::positive_no_gadget;
use crate::r1cs_utils::constrain_lc_with_scalar;
use crate::r1cs_utils::range_ops;
use crate::r1cs_utils::lemma_range_topology;
use crate::r1cs_utils::lc_minus_scalar_terms;
use crate::backend::new_transcript;
use crate::backend::new_pedersen_gens;
use crate::backend::new_bulletproof_gens;
use crate::backend::new_prover;
use crate::backend::new_verifier;
use crate::backend::new_thread_rng;
use crate::backend::random_scalar;
use crate::backend::scalar_from_fe;
use crate::backend::prover_commit;
use crate::backend::prover_prove;
use crate::backend::verifier_commit;
use crate::backend::verifier_verify;
use crate::backend::replay_prover;
use crate::backend::replay_verifier;
use crate::count_bits;
use crate::GadgetError;

/// The operations of the whole bounds circuit: two range checks on the
/// committed differences, then the constraint tying their sum to
/// `max - min`.
pub open spec fn bounds_circuit_ops(a: Option<u64>, b: Option<u64>, n: nat, sum: nat) -> Seq<
    OpV,
> {
    range_ops(Var::Committed(0), a, n, 0) + range_ops(Var::Committed(1), b, n, n) + seq![
        OpV::ConstrainV(
            lc_minus_scalar_terms(
                seq![(Var::Committed(0), 1nat), (Var::Committed(1), 1nat)],
                sum,
            ),
        ),
    ]
}

/// Prover/verifier topology equality for the whole bounds circuit: its
/// shape does not depend on whether the differences' assignments are
/// present.
pub proof fn lemma_bounds_topology(
    a1: Option<u64>,
    b1: Option<u64>,
    a2: Option<u64>,
    b2: Option<u64>,
    n: nat,
    sum: nat,
)
    ensures
        shapes(bounds_circuit_ops(a1, b1, n, sum)) =~~= shapes(
            bounds_circuit_ops(a2, b2, n, sum),
        ),
{
    let tail = seq![
        OpV::ConstrainV(
            lc_minus_scalar_terms(
                seq![(Var::Committed(0), 1nat), (Var::Committed(1), 1nat)],
                sum,
            ),
        ),
    ];
    lemma_range_topology(Var::Committed(0), a1, a2, n, 0);
    lemma_range_topology(Var::Committed(1), b1, b2, n, n);
    lemma_shapes_append(
        range_ops(Var::Committed(0), a1, n, 0),
        range_ops(Var::Committed(1), b1, n, n),
    );
    lemma_shapes_append(
        range_ops(Var::Committed(0), a2, n, 0),
        range_ops(Var::Committed(1), b2, n, n),
    );
    lemma_shapes_append(
        range_ops(Var::Committed(0), a1, n, 0) + range_ops(Var::Committed(1), b1, n, n),
        tail,
    );
    lemma_shapes_append(
        range_ops(Var::Committed(0), a2, n, 0) + range_ops(Var::Committed(1), b2, n, n),
        tail,
    );
}

/// Records the bounds circuit against a fresh recorder: range-check both
/// committed differences to `n` bits and constrain their sum to
/// `max - min`.
fn record_bounds_circuit(
    a: Option<u64>,
    b: Option<u64>,
    n: usize,
    sum: u64,
) -> (r: Result<ConstraintRecorder, GadgetError>)
    requires
        n <= 64,
    ensures
        r matches Ok(cs) ==> cs.wf() && cs.n_committed == 2 && cs.ops_spec()
            =~~= bounds_circuit_ops(a, b, n as nat, sum as nat),
{
    let mut cs = ConstraintRecorder::new(2);
    let qa = AllocatedQuantity { variable: Var::Committed(0), assignment: a };
    match positive_no_gadget(&mut cs, qa, n) {
        Ok(()) => {},
        Err(e) => {
            return Err(e);
        },
    }
    let qb = AllocatedQuantity { variable: Var::Committed(1), assignment: b };
    match positive_no_gadget(&mut cs, qb, n) {
        Ok(()) => {},
        Err(e) => {
            return Err(e);
        },
    }
    let one = FieldElem::one();
    proof {
        lemma_group_order_bounds();
        vstd::arithmetic::power2::lemma2_to64();
    }
    let mut lc = LinComb::from_term(Var::Committed(0), one);
    lc.push_term(Var::Committed(1), one);
    proof {
        let nc: nat = cs.n_committed as nat;
        let na: nat = cs.n_allocated as nat;
        let nm: nat = cs.n_mul as nat;
        assert forall|t: int| 0 <= t < lc@.len() implies #[trigger] term_wf(
            lc@[t],
            nc,
            na,
            nm,
        ) by {}
    }
    match constrain_lc_with_scalar(&mut cs, lc, &FieldElem::from_u64(sum)) {
        Ok(()) => {},
        Err(e) => {
            return Err(e);
        },
    }
    proof {
        assert(cs.ops_spec() =~~= bounds_circuit_ops(a, b, n as nat, sum as nat));
    }
    Ok(cs)
}

/// Proves and verifies that `v` lies in `[min, max]`, committing the two
/// differences and running the identical circuit on both sides.
pub fn range_proof_helper(v: u64, min: u64, max: u64) -> (r: Result<(), GadgetError>)
    requires
        min <= v <= max,
    ensures
        r matches Err(e) ==> (e == GadgetError::AllocationFailure || e
            == GadgetError::ProofConstructionFailure || e
            == GadgetError::ProofVerificationFailure),
{
    let pc_gens = new_pedersen_gens();
    let bp_gens = new_bulletproof_gens(128, 1);
    let n = count_bits(max);
    let a: u64 = v - min;
    let b: u64 = max - v;

    // Prover's scope: commit the differences and build the circuit.
    let transcript = new_transcript("BoundsTest");
    let mut prover = new_prover(&pc_gens, transcript);
    let mut rng = new_thread_rng();
    let blind_a = random_scalar(&mut rng);
    let blind_b = random_scalar(&mut rng);
    let (com_a, var_a) = prover_commit(
        &mut prover,
        scalar_from_fe(&FieldElem::from_u64(a)),
        blind_a,
    );
    let (com_b, var_b) = prover_commit(
        &mut prover,
        scalar_from_fe(&FieldElem::from_u64(b)),
        blind_b,
    );
    let mut committed: Vec<bulletproofs::r1cs::Variable> = Vec::new();
    committed.push(var_a);
    committed.push(var_b);
    let cs = match record_bounds_circuit(Some(a), Some(b), n, max - min) {
        Ok(cs) => cs,
        Err(_) => {
            return Err(GadgetError::AllocationFailure);
        },
    };
    match replay_prover(&cs, &mut prover, &committed) {
        Ok(()) => {},
        Err(e) => {
            return Err(e);
        },
    }
    let proof = match prover_prove(prover, &bp_gens) {
        Ok(p) => p,
        Err(_) => {
            return Err(GadgetError::ProofConstructionFailure);
        },
    };

    // Verifier's scope: same circuit, no assignments.
    let transcript2 = new_transcript("BoundsTest");
    let mut verifier = new_verifier(transcript2);
    let vvar_a = verifier_commit(&mut verifier, com_a);
    let vvar_b = verifier_commit(&mut verifier, com_b);
    let mut vcommitted: Vec<bulletproofs::r1cs::Variable> = Vec::new();
    vcommitted.push(vvar_a);
    vcommitted.push(vvar_b);
    let vcs = match record_bounds_circuit(None, None, n, max - min) {
        Ok(cs) => cs,
        Err(_) => {
            return Err(GadgetError::AllocationFailure);
        },
    };
    match replay_verifier(&vcs, &mut verifier, &vcommitted) {
        Ok(()) => {},
        Err(e) => {
            return Err(e);
        },
    }
    match verifier_verify(verifier, &proof, &pc_gens, &bp_gens) {
        Ok(()) => Ok(()),
        Err(_) => Err(GadgetError::ProofVerificationFailure),
    }
}

} // verus!
