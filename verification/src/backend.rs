//! The boundary to the proving backend: bulletproofs' rank-1 constraint
//! system over the Ristretto group, with merlin transcripts and rand for
//! blinding.
//!
//! Everything the backend computes is behind small trusted wrappers; the
//! replay functions below are verified logic that hand a recorded circuit
//! to a prover or verifier, operation by operation, in recording order.

use vstd::prelude::*;

use bulletproofs::r1cs::ConstraintSystem;
use core::borrow::BorrowMut;

verus! {

use crate::field::FieldElem;
use crate::r1cs::Var;
use crate::r1cs::Op;
use crate::r1cs::LinComb;
use crate::r1cs::ConstraintRecorder;
use crate::r1cs::lc_wf;
use crate::r1cs::term_wf;
use crate::r1cs::count_muls;
use crate::r1cs::count_allocs;
use crate::r1cs::lemma_count_append;
use crate::r1cs::lemma_ops_wf_index;
use crate::r1cs::lemma_lc_wf_widen;
use crate::r1cs::OpV;
use crate::GadgetError;

#[verifier::external_type_specification]
#[verifier::external_body]
pub struct ExTranscript(merlin::Transcript);

#[verifier::external_type_specification]
#[verifier::external_body]
pub struct ExScalar(curve25519_dalek_ng::scalar::Scalar);

#[verifier::external_type_specification]
#[verifier::external_body]
pub struct ExCompressedRistretto(curve25519_dalek_ng::ristretto::CompressedRistretto);

#[verifier::external_type_specification]
#[verifier::external_body]
pub struct ExPedersenGens(bulletproofs::PedersenGens);

#[verifier::external_type_specification]
#[verifier::external_body]
pub struct ExBulletproofGens(bulletproofs::BulletproofGens);

#[verifier::external_type_specification]
#[verifier::external_body]
pub struct ExVariable(bulletproofs::r1cs::Variable);

#[verifier::external_type_specification]
#[verifier::external_body]
pub struct ExLinearCombination(bulletproofs::r1cs::LinearCombination);

#[verifier::external_type_specification]
#[verifier::external_body]
pub struct ExR1CSProof(bulletproofs::r1cs::R1CSProof);

#[verifier::external_type_specification]
#[verifier::external_body]
pub struct ExR1CSError(bulletproofs::r1cs::R1CSError);

/// An owning handle around bulletproofs' prover, which carries its
/// transcript.  Opaque: nothing of the prover's state is modelled.
#[verifier::external_body]
pub(crate) struct ProverHandle<'g> {
    inner: bulletproofs::r1cs::Prover<'g, merlin::Transcript>,
}

/// An owning handle around bulletproofs' verifier, which carries its
/// transcript.  Opaque: nothing of the verifier's state is modelled.
#[verifier::external_body]
pub(crate) struct VerifierHandle {
    inner: bulletproofs::r1cs::Verifier<merlin::Transcript>,
}

#[verifier::external_type_specification]
#[verifier::external_body]
pub struct ExThreadRng(rand::rngs::ThreadRng);

/// Relies on merlin's `Transcript::new`: a fresh transcript under a domain
/// separation label.
#[verifier::external_body]
pub(crate) fn new_transcript(label: &'static str) -> merlin::Transcript {
    merlin::Transcript::new(label.as_bytes())
}

/// Relies on bulletproofs' `PedersenGens::default`: the standard Pedersen
/// commitment generators.
#[verifier::external_body]
pub(crate) fn new_pedersen_gens() -> bulletproofs::PedersenGens {
    bulletproofs::PedersenGens::default()
}

/// Relies on bulletproofs' `BulletproofGens::new`: generators for proofs of
/// up to `gens_capacity` multiplication gates.
#[verifier::external_body]
pub(crate) fn new_bulletproof_gens(gens_capacity: usize, party_capacity: usize)
    -> bulletproofs::BulletproofGens {
    bulletproofs::BulletproofGens::new(gens_capacity, party_capacity)
}

/// Relies on bulletproofs' `Prover::new`, with the transcript owned by
/// the prover.
#[verifier::external_body]
pub(crate) fn new_prover<'g>(
    pc_gens: &'g bulletproofs::PedersenGens,
    transcript: merlin::Transcript,
) -> ProverHandle<'g> {
    ProverHandle { inner: bulletproofs::r1cs::Prover::new(pc_gens, transcript) }
}

/// Relies on bulletproofs' `Verifier::new`, with the transcript owned by
/// the verifier.
#[verifier::external_body]
pub(crate) fn new_verifier(transcript: merlin::Transcript) -> VerifierHandle {
    VerifierHandle { inner: bulletproofs::r1cs::Verifier::new(transcript) }
}

/// Relies on curve25519's `Scalar::from_bytes_mod_order`: the scalar whose
/// value is the little-endian integer of the limbs, reduced mod `L`.
#[verifier::external_body]
pub(crate) fn scalar_from_fe(fe: &FieldElem) -> curve25519_dalek_ng::scalar::Scalar {
    let mut bytes = [0u8; 32];
    bytes[0..8].copy_from_slice(&fe.d0.to_le_bytes());
    bytes[8..16].copy_from_slice(&fe.d1.to_le_bytes());
    bytes[16..24].copy_from_slice(&fe.d2.to_le_bytes());
    bytes[24..32].copy_from_slice(&fe.d3.to_le_bytes());
    curve25519_dalek_ng::scalar::Scalar::from_bytes_mod_order(bytes)
}

/// Relies on rand's `thread_rng`.
#[verifier::external_body]
pub(crate) fn new_thread_rng() -> rand::rngs::ThreadRng {
    rand::thread_rng()
}

/// Relies on curve25519's `Scalar::random`: a scalar drawn from the given
/// generator; nothing is promised of its value.
#[verifier::external_body]
pub(crate) fn random_scalar(rng: &mut rand::rngs::ThreadRng)
    -> curve25519_dalek_ng::scalar::Scalar {
    curve25519_dalek_ng::scalar::Scalar::random(rng)
}

/// Relies on bulletproofs' `Variable::One`: the constant-one wire.
#[verifier::external_body]
fn bp_var_one() -> bulletproofs::r1cs::Variable {
    bulletproofs::r1cs::Variable::One()
}

/// Relies on bulletproofs' `LinearCombination::default`: the empty
/// combination.
#[verifier::external_body]
fn bp_lc_new() -> bulletproofs::r1cs::LinearCombination {
    bulletproofs::r1cs::LinearCombination::default()
}

/// Relies on bulletproofs' linear-combination addition: appends one
/// `coeff * var` term.
#[verifier::external_body]
fn bp_lc_push(
    lc: bulletproofs::r1cs::LinearCombination,
    v: bulletproofs::r1cs::Variable,
    s: curve25519_dalek_ng::scalar::Scalar,
) -> bulletproofs::r1cs::LinearCombination {
    lc + (v * s)
}

/// Relies on the prover's `commit`: a Pedersen commitment to `v` and its
/// wire.
#[verifier::external_body]
pub(crate) fn prover_commit<'g>(
    prover: &mut ProverHandle<'g>,
    v: curve25519_dalek_ng::scalar::Scalar,
    v_blinding: curve25519_dalek_ng::scalar::Scalar,
) -> (curve25519_dalek_ng::ristretto::CompressedRistretto, bulletproofs::r1cs::Variable) {
    prover.inner.commit(v, v_blinding)
}

/// Relies on the prover's `allocate_multiplier`.
#[verifier::external_body]
fn prover_alloc_multiplier<'g>(
    prover: &mut ProverHandle<'g>,
    assignment: Option<(curve25519_dalek_ng::scalar::Scalar, curve25519_dalek_ng::scalar::Scalar)>,
) -> Result<
    (
        bulletproofs::r1cs::Variable,
        bulletproofs::r1cs::Variable,
        bulletproofs::r1cs::Variable,
    ),
    bulletproofs::r1cs::R1CSError,
> {
    prover.inner.allocate_multiplier(assignment)
}

/// Relies on the prover's `allocate`.
#[verifier::external_body]
fn prover_allocate<'g>(
    prover: &mut ProverHandle<'g>,
    assignment: Option<curve25519_dalek_ng::scalar::Scalar>,
) -> Result<bulletproofs::r1cs::Variable, bulletproofs::r1cs::R1CSError> {
    prover.inner.allocate(assignment)
}

/// Relies on the prover's `multiply`.
#[verifier::external_body]
fn prover_multiply<'g>(
    prover: &mut ProverHandle<'g>,
    left: bulletproofs::r1cs::LinearCombination,
    right: bulletproofs::r1cs::LinearCombination,
) -> (
    bulletproofs::r1cs::Variable,
    bulletproofs::r1cs::Variable,
    bulletproofs::r1cs::Variable,
) {
    prover.inner.multiply(left, right)
}

/// Relies on the prover's `constrain`.
#[verifier::external_body]
fn prover_constrain<'g>(
    prover: &mut ProverHandle<'g>,
    lc: bulletproofs::r1cs::LinearCombination,
) {
    prover.inner.constrain(lc)
}

/// Relies on the prover's `prove`.
#[verifier::external_body]
pub(crate) fn prover_prove<'g>(
    prover: ProverHandle<'g>,
    bp_gens: &bulletproofs::BulletproofGens,
) -> Result<bulletproofs::r1cs::R1CSProof, bulletproofs::r1cs::R1CSError> {
    prover.inner.prove(bp_gens)
}

/// Relies on the verifier's `commit`: attaches a commitment and returns
/// its wire.
#[verifier::external_body]
pub(crate) fn verifier_commit(
    verifier: &mut VerifierHandle,
    commitment: curve25519_dalek_ng::ristretto::CompressedRistretto,
) -> bulletproofs::r1cs::Variable {
    verifier.inner.commit(commitment)
}

/// Relies on the verifier's `allocate_multiplier`.
#[verifier::external_body]
fn verifier_alloc_multiplier(
    verifier: &mut VerifierHandle,
    assignment: Option<(curve25519_dalek_ng::scalar::Scalar, curve25519_dalek_ng::scalar::Scalar)>,
) -> Result<
    (
        bulletproofs::r1cs::Variable,
        bulletproofs::r1cs::Variable,
        bulletproofs::r1cs::Variable,
    ),
    bulletproofs::r1cs::R1CSError,
> {
    verifier.inner.allocate_multiplier(assignment)
}

/// Relies on the verifier's `allocate`.
#[verifier::external_body]
fn verifier_allocate(
    verifier: &mut VerifierHandle,
    assignment: Option<curve25519_dalek_ng::scalar::Scalar>,
) -> Result<bulletproofs::r1cs::Variable, bulletproofs::r1cs::R1CSError> {
    verifier.inner.allocate(assignment)
}

/// Relies on the verifier's `multiply`.
#[verifier::external_body]
fn verifier_multiply(
    verifier: &mut VerifierHandle,
    left: bulletproofs::r1cs::LinearCombination,
    right: bulletproofs::r1cs::LinearCombination,
) -> (
    bulletproofs::r1cs::Variable,
    bulletproofs::r1cs::Variable,
    bulletproofs::r1cs::Variable,
) {
    verifier.inner.multiply(left, right)
}

/// Relies on the verifier's `constrain`.
#[verifier::external_body]
fn verifier_constrain(
    verifier: &mut VerifierHandle,
    lc: bulletproofs::r1cs::LinearCombination,
) {
    verifier.inner.constrain(lc)
}

/// Relies on the verifier's `verify`.
#[verifier::external_body]
pub(crate) fn verifier_verify(
    verifier: VerifierHandle,
    proof: &bulletproofs::r1cs::R1CSProof,
    pc_gens: &bulletproofs::PedersenGens,
    bp_gens: &bulletproofs::BulletproofGens,
) -> Result<(), bulletproofs::r1cs::R1CSError> {
    verifier.inner.verify(proof, pc_gens, bp_gens)
}

/// Translate a model linear combination into the backend's, mapping each
/// wire through the tables of backend variables built so far.
fn convert_lc(
    lc: &LinComb,
    committed: &Vec<bulletproofs::r1cs::Variable>,
    allocated: &Vec<bulletproofs::r1cs::Variable>,
    muls: &Vec<
        (
            bulletproofs::r1cs::Variable,
            bulletproofs::r1cs::Variable,
            bulletproofs::r1cs::Variable,
        ),
    >,
) -> bulletproofs::r1cs::LinearCombination
    requires
        lc_wf(lc@, committed@.len() as nat, allocated@.len() as nat, muls@.len() as nat),
{
    let mut out = bp_lc_new();
    let mut i: usize = 0;
    while i < lc.terms.len()
        invariant
            lc_wf(
                lc@,
                committed@.len() as nat,
                allocated@.len() as nat,
                muls@.len() as nat,
            ),
            lc@.len() == lc.terms@.len(),
            i <= lc.terms@.len(),
        decreases lc.terms@.len() - i,
    {
        let (v, c) = lc.terms[i];
        proof {
            assert(lc@[i as int] == (v, c.as_nat()));
            assert(term_wf(
                lc@[i as int],
                committed@.len() as nat,
                allocated@.len() as nat,
                muls@.len() as nat,
            ));
        }
        let bp_var: bulletproofs::r1cs::Variable = match v {
            Var::One => bp_var_one(),
            Var::Committed(j) => committed[j],
            Var::Allocated(j) => allocated[j],
            Var::MulLeft(j) => muls[j].0,
            Var::MulRight(j) => muls[j].1,
            Var::MulOut(j) => muls[j].2,
        };
        let s = scalar_from_fe(&c);
        out = bp_lc_push(out, bp_var, s);
        i = i + 1;
    }
    out
}

/// Replays a recorded circuit against a bulletproofs prover, in recording
/// order.  The committed wires must already exist, in the order the
/// recorder's `Committed` indices name them.  Backend allocation failures
/// surface as `AllocationFailure`; nothing else can fail.
pub(crate) fn replay_prover<'g>(
    cs: &ConstraintRecorder,
    prover: &mut ProverHandle<'g>,
    committed: &Vec<bulletproofs::r1cs::Variable>,
) -> (r: Result<(), GadgetError>)
    requires
        cs.wf(),
        committed@.len() == cs.n_committed,
    ensures
        r matches Err(e) ==> e == GadgetError::AllocationFailure,
{
    let ghost s: Seq<OpV> = cs.ops_spec();
    let mut allocated: Vec<bulletproofs::r1cs::Variable> = Vec::new();
    let mut muls: Vec<
        (
            bulletproofs::r1cs::Variable,
            bulletproofs::r1cs::Variable,
            bulletproofs::r1cs::Variable,
        ),
    > = Vec::new();
    let mut i: usize = 0;
    proof {
        assert(s.subrange(0, 0) =~= Seq::<OpV>::empty());
    }
    while i < cs.ops.len()
        invariant
            cs.wf(),
            committed@.len() == cs.n_committed,
            s == cs.ops_spec(),
            i <= cs.ops.len(),
            muls@.len() == count_muls(s.subrange(0, i as int)),
            allocated@.len() == count_allocs(s.subrange(0, i as int)),
        decreases cs.ops.len() - i,
    {
        let ghost prefix = s.subrange(0, i as int);
        proof {
            assert(s.subrange(0, i + 1).drop_last() =~= prefix);
            assert(s.subrange(0, i + 1).last() == s[i as int]);
            lemma_ops_wf_index(s, cs.n_committed as nat, 0, 0, i as int);
            assert(s =~= prefix + s.subrange(i as int, s.len() as int));
            lemma_count_append(prefix, s.subrange(i as int, s.len() as int));
        }
        match &cs.ops[i] {
            Op::AllocMul(assignment) => {
                let converted: Option<
                    (curve25519_dalek_ng::scalar::Scalar, curve25519_dalek_ng::scalar::Scalar),
                > = match assignment {
                    Some(p) => Some((scalar_from_fe(&p.0), scalar_from_fe(&p.1))),
                    None => None,
                };
                match prover_alloc_multiplier(prover, converted) {
                    Ok(triple) => {
                        muls.push(triple);
                    },
                    Err(_) => {
                        return Err(GadgetError::AllocationFailure);
                    },
                }
            },
            Op::Alloc(assignment) => {
                let converted: Option<curve25519_dalek_ng::scalar::Scalar> = match assignment {
                    Some(x) => Some(scalar_from_fe(x)),
                    None => None,
                };
                match prover_allocate(prover, converted) {
                    Ok(v) => {
                        allocated.push(v);
                    },
                    Err(_) => {
                        return Err(GadgetError::AllocationFailure);
                    },
                }
            },
            Op::Multiply(l, r) => {
                proof {
                    lemma_lc_wf_widen(
                        l@,
                        cs.n_committed as nat,
                        count_allocs(prefix),
                        count_muls(prefix),
                        allocated@.len() as nat,
                        muls@.len() as nat,
                    );
                    lemma_lc_wf_widen(
                        r@,
                        cs.n_committed as nat,
                        count_allocs(prefix),
                        count_muls(prefix),
                        allocated@.len() as nat,
                        muls@.len() as nat,
                    );
                }
                let bl = convert_lc(l, committed, &allocated, &muls);
                let br = convert_lc(r, committed, &allocated, &muls);
                let triple = prover_multiply(prover, bl, br);
                muls.push(triple);
            },
            Op::Constrain(t) => {
                proof {
                    lemma_lc_wf_widen(
                        t@,
                        cs.n_committed as nat,
                        count_allocs(prefix),
                        count_muls(prefix),
                        allocated@.len() as nat,
                        muls@.len() as nat,
                    );
                }
                let bt = convert_lc(t, committed, &allocated, &muls);
                prover_constrain(prover, bt);
            },
        }
        i = i + 1;
    }
    Ok(())
}

/// Replays a recorded circuit against a bulletproofs verifier, in the same
/// order as [`replay_prover`], so both sides see the identical topology.
pub(crate) fn replay_verifier(
    cs: &ConstraintRecorder,
    verifier: &mut VerifierHandle,
    committed: &Vec<bulletproofs::r1cs::Variable>,
) -> (r: Result<(), GadgetError>)
    requires
        cs.wf(),
        committed@.len() == cs.n_committed,
    ensures
        r matches Err(e) ==> e == GadgetError::AllocationFailure,
{
    let ghost s: Seq<OpV> = cs.ops_spec();
    let mut allocated: Vec<bulletproofs::r1cs::Variable> = Vec::new();
    let mut muls: Vec<
        (
            bulletproofs::r1cs::Variable,
            bulletproofs::r1cs::Variable,
            bulletproofs::r1cs::Variable,
        ),
    > = Vec::new();
    let mut i: usize = 0;
    proof {
        assert(s.subrange(0, 0) =~= Seq::<OpV>::empty());
    }
    while i < cs.ops.len()
        invariant
            cs.wf(),
            committed@.len() == cs.n_committed,
            s == cs.ops_spec(),
            i <= cs.ops.len(),
            muls@.len() == count_muls(s.subrange(0, i as int)),
            allocated@.len() == count_allocs(s.subrange(0, i as int)),
        decreases cs.ops.len() - i,
    {
        let ghost prefix = s.subrange(0, i as int);
        proof {
            assert(s.subrange(0, i + 1).drop_last() =~= prefix);
            assert(s.subrange(0, i + 1).last() == s[i as int]);
            lemma_ops_wf_index(s, cs.n_committed as nat, 0, 0, i as int);
            assert(s =~= prefix + s.subrange(i as int, s.len() as int));
            lemma_count_append(prefix, s.subrange(i as int, s.len() as int));
        }
        match &cs.ops[i] {
            Op::AllocMul(_) => {
                match verifier_alloc_multiplier(verifier, None) {
                    Ok(triple) => {
                        muls.push(triple);
                    },
                    Err(_) => {
                        return Err(GadgetError::AllocationFailure);
                    },
                }
            },
            Op::Alloc(_) => {
                match verifier_allocate(verifier, None) {
                    Ok(v) => {
                        allocated.push(v);
                    },
                    Err(_) => {
                        return Err(GadgetError::AllocationFailure);
                    },
                }
            },
            Op::Multiply(l, r) => {
                proof {
                    lemma_lc_wf_widen(
                        l@,
                        cs.n_committed as nat,
                        count_allocs(prefix),
                        count_muls(prefix),
                        allocated@.len() as nat,
                        muls@.len() as nat,
                    );
                    lemma_lc_wf_widen(
                        r@,
                        cs.n_committed as nat,
                        count_allocs(prefix),
                        count_muls(prefix),
                        allocated@.len() as nat,
                        muls@.len() as nat,
                    );
                }
                let bl = convert_lc(l, committed, &allocated, &muls);
                let br = convert_lc(r, committed, &allocated, &muls);
                let triple = verifier_multiply(verifier, bl, br);
                muls.push(triple);
            },
            Op::Constrain(t) => {
                proof {
                    lemma_lc_wf_widen(
                        t@,
                        cs.n_committed as nat,
                        count_allocs(prefix),
                        count_muls(prefix),
                        allocated@.len() as nat,
                        muls@.len() as nat,
                    );
                }
                let bt = convert_lc(t, committed, &allocated, &muls);
                verifier_constrain(verifier, bt);
            },
        }
        i = i + 1;
    }
    Ok(())
}

} // verus!
