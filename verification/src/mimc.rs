//! The round-cipher hash gadget: a Feistel-style keyed permutation whose
//! nonlinear step is a cube, unrolled into two multiplication gates per
//! round.
//!
//! The plain hash [`mimc`] computes the same function outside the circuit,
//! over verified field arithmetic, so an expected image can be produced
//! independently and constrained inside the circuit by [`mimc_gadget`].

use vstd::prelude::*;

verus! {

use crate::field::FieldElem;
use crate::field::group_order;
use crate::field::lemma_group_order_bounds;
use crate::r1cs::Var;
use crate::r1cs::OpV;
use crate::r1cs::LinComb;
use crate::r1cs::ConstraintRecorder;
use crate::r1cs::lc_wf;
use crate::r1cs::term_wf;
use crate::r1cs::count_muls;
use crate::r1cs::count_allocs;
use crate::r1cs::var_in_bounds;
use crate::r1cs::lemma_count_append;
use crate::r1cs_utils::AllocatedScalar;
use crate::r1cs_utils::lc_minus_scalar_terms;
use crate::r1cs_utils::constrain_lc_with_scalar;
use crate::GadgetError;
use crate::backend::new_transcript;
use crate::backend::new_pedersen_gens;
use crate::backend::new_bulletproof_gens;
use crate::backend::new_prover;
use crate::backend::new_verifier;
use crate::backend::new_thread_rng;
use crate::backend::random_scalar;
use crate::backend::scalar_from_fe;
use crate::backend::prover_commit;
use crate::backend::prover_prove;
use crate::backend::verifier_commit;
use crate::backend::verifier_verify;
use crate::backend::replay_prover;
use crate::backend::replay_verifier;

/// The round count the preimage circuit and its tests run with.
pub const MIMC_ROUNDS: usize = 322;

/// One round of the cipher on plain field values:
/// `(xl, xr) -> ((xl + c)^3 + xr, xl)`, all mod `L`.
pub open spec fn mimc_round_spec(xl: nat, xr: nat, c: nat) -> (nat, nat) {
    let t = (xl + c) % group_order();
    let t2 = (t * t) % group_order();
    let t3 = (t2 * t) % group_order();
    ((t3 + xr) % group_order(), xl)
}

/// The cipher state after `k` rounds.
pub open spec fn mimc_state(xl: nat, xr: nat, cs: Seq<nat>, k: nat) -> (nat, nat)
    decreases k,
{
    if k == 0 {
        (xl, xr)
    } else {
        let prev = mimc_state(xl, xr, cs, (k - 1) as nat);
        mimc_round_spec(prev.0, prev.1, cs[k - 1])
    }
}

/// The hash of two inputs: the left half of the state after all rounds.
pub open spec fn mimc_spec(xl: nat, xr: nat, cs: Seq<nat>) -> nat {
    mimc_state(xl, xr, cs, cs.len()).0
}

/// Computes the round-cipher hash outside the circuit.  A pure function of
/// its inputs: equal inputs always give the equal image, which is what lets
/// a caller compute the expected image independently of the circuit.
pub fn mimc(xl: &FieldElem, xr: &FieldElem, constants: &Vec<FieldElem>) -> (r: FieldElem)
    requires
        xl.wf(),
        xr.wf(),
        constants@.len() == MIMC_ROUNDS,
        forall|i: int| 0 <= i < constants@.len() ==> (#[trigger] constants@[i]).wf(),
    ensures
        r.wf(),
        r.as_nat() == mimc_spec(
            xl.as_nat(),
            xr.as_nat(),
            constants@.map_values(|c: FieldElem| c.as_nat()),
        ),
{
    let ghost cs: Seq<nat> = constants@.map_values(|c: FieldElem| c.as_nat());
    let mut cur_l = *xl;
    let mut cur_r = *xr;
    let mut i: usize = 0;
    while i < constants.len()
        invariant
            xl.wf(),
            xr.wf(),
            constants@.len() == MIMC_ROUNDS,
            forall|j: int| 0 <= j < constants@.len() ==> (#[trigger] constants@[j]).wf(),
            cs == constants@.map_values(|c: FieldElem| c.as_nat()),
            i <= constants@.len(),
            cur_l.wf(),
            cur_r.wf(),
            (cur_l.as_nat(), cur_r.as_nat()) == mimc_state(
                xl.as_nat(),
                xr.as_nat(),
                cs,
                i as nat,
            ),
        decreases constants@.len() - i,
    {
        let c = constants[i];
        let tmp1 = cur_l.add_mod(&c);
        let tmp2 = tmp1.mul_mod(&tmp1).mul_mod(&tmp1);
        let new_l = tmp2.add_mod(&cur_r);
        cur_r = cur_l;
        cur_l = new_l;
        i = i + 1;
    }
    cur_l
}

/// The linear combination `left + c` used as both inputs of a round's
/// first gate.
pub open spec fn mimc_round_input(left: Seq<(Var, nat)>, c: nat) -> Seq<(Var, nat)> {
    left.push((Var::One, c))
}

/// The circuit-side state of the hash after `k` rounds, starting from the
/// linear combinations `l0` and `r0` with gate indices from `m0`: the
/// recorded operations and the two running linear combinations.
pub open spec fn mimc_lc_state(
    l0: Seq<(Var, nat)>,
    r0: Seq<(Var, nat)>,
    cs: Seq<nat>,
    k: nat,
    m0: nat,
) -> (Seq<OpV>, Seq<(Var, nat)>, Seq<(Var, nat)>)
    decreases k,
{
    if k == 0 {
        (Seq::empty(), l0, r0)
    } else {
        let prev = mimc_lc_state(l0, r0, cs, (k - 1) as nat, m0);
        let m: nat = (m0 + 2 * (k - 1)) as nat;
        let lp = mimc_round_input(prev.1, cs[k - 1]);
        let ops = prev.0 + seq![
            OpV::MultiplyV(lp, lp),
            OpV::MultiplyV(
                seq![(Var::MulOut(m as usize), 1nat)],
                seq![(Var::MulLeft(m as usize), 1nat)],
            ),
        ];
        let new_l = seq![(Var::MulOut((m + 1) as usize), 1nat)] + prev.2;
        (ops, new_l, prev.1)
    }
}

/// Per round the gadget records exactly two multiplication gates.
pub proof fn lemma_mimc_gate_count(
    l0: Seq<(Var, nat)>,
    r0: Seq<(Var, nat)>,
    cs: Seq<nat>,
    k: nat,
    m0: nat,
)
    ensures
        mimc_lc_state(l0, r0, cs, k, m0).0.len() == 2 * k,
        count_muls(mimc_lc_state(l0, r0, cs, k, m0).0) == 2 * k,
        count_allocs(mimc_lc_state(l0, r0, cs, k, m0).0) == 0,
    decreases k,
{
    if k > 0 {
        lemma_mimc_gate_count(l0, r0, cs, (k - 1) as nat, m0);
        let prev = mimc_lc_state(l0, r0, cs, (k - 1) as nat, m0);
        let m: nat = (m0 + 2 * (k - 1)) as nat;
        let lp = mimc_round_input(prev.1, cs[k - 1]);
        let pair = seq![
            OpV::MultiplyV(lp, lp),
            OpV::MultiplyV(
                seq![(Var::MulOut(m as usize), 1nat)],
                seq![(Var::MulLeft(m as usize), 1nat)],
            ),
        ];
        lemma_count_append(prev.0, pair);
        assert(pair.drop_last() =~= seq![OpV::MultiplyV(lp, lp)]);
        assert(seq![OpV::MultiplyV(lp, lp)].drop_last() =~= Seq::<OpV>::empty());
        assert(count_muls(Seq::<OpV>::empty()) == 0);
        assert(count_allocs(Seq::<OpV>::empty()) == 0);
        assert(count_muls(seq![OpV::MultiplyV(lp, lp)]) == 1);
        assert(count_allocs(seq![OpV::MultiplyV(lp, lp)]) == 0);
        assert(count_muls(pair) == 2);
        assert(count_allocs(pair) == 0);
    }
}

/// Hash determinism: the recorded operations and the output combination
/// are functions of the inputs alone.  Two runs from extensionally equal
/// inputs produce equal circuits and equal outputs.
pub proof fn lemma_mimc_deterministic(
    l1: Seq<(Var, nat)>,
    r1: Seq<(Var, nat)>,
    cs1: Seq<nat>,
    l2: Seq<(Var, nat)>,
    r2: Seq<(Var, nat)>,
    cs2: Seq<nat>,
    k: nat,
    m0: nat,
)
    requires
        l1 =~= l2,
        r1 =~= r2,
        cs1 =~= cs2,
    ensures
        mimc_lc_state(l1, r1, cs1, k, m0).0 =~~= mimc_lc_state(l2, r2, cs2, k, m0).0,
        mimc_lc_state(l1, r1, cs1, k, m0).1 =~= mimc_lc_state(l2, r2, cs2, k, m0).1,
        mimc_lc_state(l1, r1, cs1, k, m0).2 =~= mimc_lc_state(l2, r2, cs2, k, m0).2,
{
}

/// Computes the hash inside the circuit: per round, two chained
/// multiplication gates cube `left + c`, and the halves swap
/// Feistel-style.  Returns the output linear combination.
pub fn mimc_hash_2(
    cs: &mut ConstraintRecorder,
    left: LinComb,
    right: LinComb,
    mimc_rounds: usize,
    mimc_constants: &Vec<FieldElem>,
) -> (r: Result<LinComb, GadgetError>)
    requires
        old(cs).wf(),
        mimc_rounds <= mimc_constants@.len(),
        old(cs).n_mul + 2 * mimc_rounds <= usize::MAX,
        forall|i: int|
            0 <= i < mimc_constants@.len() ==> (#[trigger] mimc_constants@[i]).wf(),
        lc_wf(
            left@,
            old(cs).n_committed as nat,
            old(cs).n_allocated as nat,
            old(cs).n_mul as nat,
        ),
        lc_wf(
            right@,
            old(cs).n_committed as nat,
            old(cs).n_allocated as nat,
            old(cs).n_mul as nat,
        ),
    ensures
        final(cs).wf(),
        r matches Ok(out) && out@ =~= mimc_lc_state(
            left@,
            right@,
            mimc_constants@.map_values(|c: FieldElem| c.as_nat()),
            mimc_rounds as nat,
            old(cs).n_mul as nat,
        ).1 && lc_wf(
            out@,
            final(cs).n_committed as nat,
            final(cs).n_allocated as nat,
            final(cs).n_mul as nat,
        ),
        final(cs).ops_spec() =~~= old(cs).ops_spec() + mimc_lc_state(
            left@,
            right@,
            mimc_constants@.map_values(|c: FieldElem| c.as_nat()),
            mimc_rounds as nat,
            old(cs).n_mul as nat,
        ).0,
        final(cs).n_mul == old(cs).n_mul + 2 * mimc_rounds,
        final(cs).n_allocated == old(cs).n_allocated,
        final(cs).n_committed == old(cs).n_committed,
{
    let ghost csq: Seq<nat> = mimc_constants@.map_values(|c: FieldElem| c.as_nat());
    let ghost m0: nat = cs.n_mul as nat;
    let ghost l0: Seq<(Var, nat)> = left@;
    let ghost r0: Seq<(Var, nat)> = right@;
    let one = FieldElem::one();
    proof {
        lemma_group_order_bounds();
        vstd::arithmetic::power2::lemma2_to64();
        assert(cs.ops_spec() + Seq::<OpV>::empty() =~~= cs.ops_spec());
    }
    let mut left_v = left;
    let mut right_v = right;
    let mut j: usize = 0;
    while j < mimc_rounds
        invariant
            cs.wf(),
            mimc_rounds <= mimc_constants@.len(),
            j <= mimc_rounds,
            csq == mimc_constants@.map_values(|c: FieldElem| c.as_nat()),
            forall|i: int|
                0 <= i < mimc_constants@.len() ==> (#[trigger] mimc_constants@[i]).wf(),
            cs.n_committed == old(cs).n_committed,
            cs.n_allocated == old(cs).n_allocated,
            cs.n_mul == old(cs).n_mul + 2 * j,
            old(cs).n_mul + 2 * mimc_rounds <= usize::MAX,
            m0 == old(cs).n_mul as nat,
            one.as_nat() == 1,
            left_v@ =~= mimc_lc_state(l0, r0, csq, j as nat, m0).1,
            right_v@ =~= mimc_lc_state(l0, r0, csq, j as nat, m0).2,
            cs.ops_spec() =~~= old(cs).ops_spec() + mimc_lc_state(
                l0,
                r0,
                csq,
                j as nat,
                m0,
            ).0,
            lc_wf(
                left_v@,
                cs.n_committed as nat,
                cs.n_allocated as nat,
                cs.n_mul as nat,
            ),
            lc_wf(
                right_v@,
                cs.n_committed as nat,
                cs.n_allocated as nat,
                cs.n_mul as nat,
            ),
        decreases mimc_rounds - j,
    {
        let c = mimc_constants[j];
        let mut lp = left_v.duplicate();
        proof {
            lemma_group_order_bounds();
            vstd::arithmetic::power2::lemma_pow2_pos(252);
            assert(mimc_constants@[j as int].wf());
        }
        lp.push_term(Var::One, c);
        proof {
            let nc: nat = cs.n_committed as nat;
            let na: nat = cs.n_allocated as nat;
            let nm: nat = cs.n_mul as nat;
            assert forall|t: int| 0 <= t < lp@.len() implies #[trigger] term_wf(
                lp@[t],
                nc,
                na,
                nm,
            ) by {
                if t < left_v@.len() {
                    assert(term_wf(left_v@[t], nc, na, nm));
                }
            }
        }
        let lp2 = lp.duplicate();
        let (l_var, _r_var, o_var) = cs.multiply(lp2, lp);
        let sq_lc = LinComb::from_term(o_var, one);
        let cube_lc = LinComb::from_term(l_var, one);
        proof {
            let nc: nat = cs.n_committed as nat;
            let na: nat = cs.n_allocated as nat;
            let nm: nat = cs.n_mul as nat;
            assert(term_wf((o_var, 1nat), nc, na, nm));
            assert(term_wf((l_var, 1nat), nc, na, nm));
            assert forall|t: int| 0 <= t < sq_lc@.len() implies #[trigger] term_wf(
                sq_lc@[t],
                nc,
                na,
                nm,
            ) by {}
            assert forall|t: int| 0 <= t < cube_lc@.len() implies #[trigger] term_wf(
                cube_lc@[t],
                nc,
                na,
                nm,
            ) by {}
        }
        let ghost lv_pre: Seq<(Var, nat)> = left_v@;
        let ghost rv_pre: Seq<(Var, nat)> = right_v@;
        let (_l2, _r2, o2_var) = cs.multiply(sq_lc, cube_lc);
        let mut tmp = LinComb::from_term(o2_var, one);
        tmp.append(&right_v);
        right_v = left_v;
        left_v = tmp;
        proof {
            let prev = mimc_lc_state(l0, r0, csq, j as nat, m0);
            let m: nat = m0 + 2 * (j as nat);
            let lpv = mimc_round_input(prev.1, csq[j as int]);
            let pair = seq![
                OpV::MultiplyV(lpv, lpv),
                OpV::MultiplyV(
                    seq![(Var::MulOut(m as usize), 1nat)],
                    seq![(Var::MulLeft(m as usize), 1nat)],
                ),
            ];
            assert(mimc_lc_state(l0, r0, csq, (j + 1) as nat, m0).0 =~~= prev.0 + pair);
            assert(cs.ops_spec() =~~= old(cs).ops_spec() + mimc_lc_state(
                l0,
                r0,
                csq,
                (j + 1) as nat,
                m0,
            ).0);
            assert(left_v@ =~= mimc_lc_state(l0, r0, csq, (j + 1) as nat, m0).1);
            assert(right_v@ =~= mimc_lc_state(l0, r0, csq, (j + 1) as nat, m0).2);
            let nc: nat = cs.n_committed as nat;
            let na: nat = cs.n_allocated as nat;
            let nm: nat = cs.n_mul as nat;
            assert forall|t: int| 0 <= t < left_v@.len() implies #[trigger] term_wf(
                left_v@[t],
                nc,
                na,
                nm,
            ) by {
                if t == 0 {
                    assert(left_v@[t] == (o2_var, 1nat));
                } else {
                    assert(left_v@[t] == rv_pre[t - 1]);
                    assert(term_wf(rv_pre[t - 1], nc, na, (nm - 2) as nat));
                }
            }
            assert forall|t: int| 0 <= t < right_v@.len() implies #[trigger] term_wf(
                right_v@[t],
                nc,
                na,
                nm,
            ) by {
                assert(term_wf(lv_pre[t], nc, na, (nm - 2) as nat));
            }
        }
        j = j + 1;
    }
    Ok(left_v)
}

/// Runs the in-circuit hash on the two committed inputs and constrains
/// its output to equal the public image.
pub fn mimc_gadget(
    cs: &mut ConstraintRecorder,
    left: AllocatedScalar,
    right: AllocatedScalar,
    mimc_rounds: usize,
    mimc_constants: &Vec<FieldElem>,
    image: &FieldElem,
) -> (r: Result<(), GadgetError>)
    requires
        old(cs).wf(),
        image.wf(),
        mimc_rounds <= mimc_constants@.len(),
        old(cs).n_mul + 2 * mimc_rounds <= usize::MAX,
        forall|i: int|
            0 <= i < mimc_constants@.len() ==> (#[trigger] mimc_constants@[i]).wf(),
        var_in_bounds(
            left.variable,
            old(cs).n_committed as nat,
            old(cs).n_allocated as nat,
            old(cs).n_mul as nat,
        ),
        var_in_bounds(
            right.variable,
            old(cs).n_committed as nat,
            old(cs).n_allocated as nat,
            old(cs).n_mul as nat,
        ),
    ensures
        final(cs).wf(),
        r == Ok::<(), GadgetError>(()),
        final(cs).ops_spec() =~~= old(cs).ops_spec() + mimc_lc_state(
            seq![(left.variable, 1nat)],
            seq![(right.variable, 1nat)],
            mimc_constants@.map_values(|c: FieldElem| c.as_nat()),
            mimc_rounds as nat,
            old(cs).n_mul as nat,
        ).0.push(
            OpV::ConstrainV(
                lc_minus_scalar_terms(
                    mimc_lc_state(
                        seq![(left.variable, 1nat)],
                        seq![(right.variable, 1nat)],
                        mimc_constants@.map_values(|c: FieldElem| c.as_nat()),
                        mimc_rounds as nat,
                        old(cs).n_mul as nat,
                    ).1,
                    image.as_nat(),
                ),
            ),
        ),
        final(cs).n_mul == old(cs).n_mul + 2 * mimc_rounds,
        final(cs).n_allocated == old(cs).n_allocated,
        final(cs).n_committed == old(cs).n_committed,
{
    let one = FieldElem::one();
    proof {
        lemma_group_order_bounds();
        vstd::arithmetic::power2::lemma2_to64();
    }
    let left_lc = LinComb::from_term(left.variable, one);
    let right_lc = LinComb::from_term(right.variable, one);
    proof {
        let nc: nat = cs.n_committed as nat;
        let na: nat = cs.n_allocated as nat;
        let nm: nat = cs.n_mul as nat;
        vstd::arithmetic::power2::lemma_pow2_pos(252);
        assert forall|t: int| 0 <= t < left_lc@.len() implies #[trigger] term_wf(
            left_lc@[t],
            nc,
            na,
            nm,
        ) by {}
        assert forall|t: int| 0 <= t < right_lc@.len() implies #[trigger] term_wf(
            right_lc@[t],
            nc,
            na,
            nm,
        ) by {}
    }
    let res = mimc_hash_2(cs, left_lc, right_lc, mimc_rounds, mimc_constants);
    match res {
        Ok(out) => {
            let ghost pre = cs.ops_spec();
            constrain_lc_with_scalar(cs, out, image)?;
            Ok(())
        },
        Err(e) => Err(e),
    }
}


/// Records the preimage circuit against a fresh recorder: the hash of the
/// two committed inputs, constrained to the public image.
fn record_mimc_circuit(
    xl: Option<FieldElem>,
    xr: Option<FieldElem>,
    mimc_constants: &Vec<FieldElem>,
    image: &FieldElem,
) -> (r: Result<ConstraintRecorder, GadgetError>)
    requires
        image.wf(),
        mimc_constants@.len() == MIMC_ROUNDS,
        forall|i: int|
            0 <= i < mimc_constants@.len() ==> (#[trigger] mimc_constants@[i]).wf(),
    ensures
        // The recorded operations do not mention `xl` or `xr`: prover and
        // verifier runs build the identical topology.
        r matches Ok(cs) ==> cs.wf() && cs.n_committed == 2 && cs.ops_spec()
            =~~= mimc_lc_state(
            seq![(Var::Committed(0), 1nat)],
            seq![(Var::Committed(1), 1nat)],
            mimc_constants@.map_values(|c: FieldElem| c.as_nat()),
            MIMC_ROUNDS as nat,
            0,
        ).0.push(
            OpV::ConstrainV(
                lc_minus_scalar_terms(
                    mimc_lc_state(
                        seq![(Var::Committed(0), 1nat)],
                        seq![(Var::Committed(1), 1nat)],
                        mimc_constants@.map_values(|c: FieldElem| c.as_nat()),
                        MIMC_ROUNDS as nat,
                        0,
                    ).1,
                    image.as_nat(),
                ),
            ),
        ),
{
    let mut cs = ConstraintRecorder::new(2);
    let left = AllocatedScalar { variable: Var::Committed(0), assignment: xl };
    let right = AllocatedScalar { variable: Var::Committed(1), assignment: xr };
    match mimc_gadget(&mut cs, left, right, MIMC_ROUNDS, mimc_constants, image) {
        Ok(()) => {},
        Err(e) => {
            return Err(e);
        },
    }
    Ok(cs)
}

/// Proves and verifies knowledge of a preimage `(xl, xr)` of `image` under
/// the round-cipher hash with the given constants, running the identical
/// circuit as prover and verifier.
pub fn mimc_proof_helper(
    xl: &FieldElem,
    xr: &FieldElem,
    mimc_constants: &Vec<FieldElem>,
    image: &FieldElem,
) -> (r: Result<(), GadgetError>)
    requires
        xl.wf(),
        xr.wf(),
        image.wf(),
        mimc_constants@.len() == MIMC_ROUNDS,
        forall|i: int|
            0 <= i < mimc_constants@.len() ==> (#[trigger] mimc_constants@[i]).wf(),
    ensures
        r matches Err(e) ==> (e == GadgetError::AllocationFailure || e
            == GadgetError::ProofConstructionFailure || e
            == GadgetError::ProofVerificationFailure),
{
    let pc_gens = new_pedersen_gens();
    let bp_gens = new_bulletproof_gens(2048, 1);

    // Prover's scope.
    let transcript = new_transcript("MiMC");
    let mut prover = new_prover(&pc_gens, transcript);
    let mut rng = new_thread_rng();
    let blind_l = random_scalar(&mut rng);
    let blind_r = random_scalar(&mut rng);
    let (com_l, var_l) = prover_commit(&mut prover, scalar_from_fe(xl), blind_l);
    let (com_r, var_r) = prover_commit(&mut prover, scalar_from_fe(xr), blind_r);
    let mut committed: Vec<bulletproofs::r1cs::Variable> = Vec::new();
    committed.push(var_l);
    committed.push(var_r);
    let cs = match record_mimc_circuit(Some(*xl), Some(*xr), mimc_constants, image) {
        Ok(cs) => cs,
        Err(_) => {
            return Err(GadgetError::AllocationFailure);
        },
    };
    match replay_prover(&cs, &mut prover, &committed) {
        Ok(()) => {},
        Err(e) => {
            return Err(e);
        },
    }
    let proof = match prover_prove(prover, &bp_gens) {
        Ok(p) => p,
        Err(_) => {
            return Err(GadgetError::ProofConstructionFailure);
        },
    };

    // Verifier's scope.
    let transcript2 = new_transcript("MiMC");
    let mut verifier = new_verifier(transcript2);
    let vvar_l = verifier_commit(&mut verifier, com_l);
    let vvar_r = verifier_commit(&mut verifier, com_r);
    let mut vcommitted: Vec<bulletproofs::r1cs::Variable> = Vec::new();
    vcommitted.push(vvar_l);
    vcommitted.push(vvar_r);
    let vcs = match record_mimc_circuit(None, None, mimc_constants, image) {
        Ok(cs) => cs,
        Err(_) => {
            return Err(GadgetError::AllocationFailure);
        },
    };
    match replay_verifier(&vcs, &mut verifier, &vcommitted) {
        Ok(()) => {},
        Err(e) => {
            return Err(e);
        },
    }
    match verifier_verify(verifier, &proof, &pc_gens, &bp_gens) {
        Ok(()) => Ok(()),
        Err(_) => Err(GadgetError::ProofVerificationFailure),
    }
}

} // verus!
