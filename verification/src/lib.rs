//! Gadgets for building rank-1 constraint system (R1CS) circuits, as used in
//! zero-knowledge range proofs and preimage proofs.
//!
//! A gadget takes allocated witness variables and emits constraints that force
//! those variables to satisfy an arithmetic relation.  Constraints are first
//! recorded against an in-memory circuit model whose semantics is fully
//! specified here; a thin replay layer then hands the recorded circuit to the
//! bulletproofs proving backend.

use vstd::prelude::*;

mod backend;
pub mod field;
pub mod gadget_chunk_proof;
pub mod gadget_range_proof;
pub mod gadget_sha256_proof;
pub mod mimc;
pub mod r1cs;
pub mod r1cs_utils;
pub mod utils;

verus! {

/// Whether an error reports a malformed circuit table.
pub open spec fn is_table_error(e: GadgetError) -> bool {
    match e {
        GadgetError::MalformedCircuitTable { pos } => true,
        _ => false,
    }
}

/// Errors a gadget or the circuit driver around it can report.
#[derive(Clone, Copy, Debug, PartialEq, Eq, Structural)]
pub enum GadgetError {
    /// The backend exhausted its wire capacity.
    AllocationFailure,
    /// The circuit description table is malformed; carries the cursor
    /// position of the offending token.
    MalformedCircuitTable { pos: usize },
    /// The backend could not construct a proof.
    ProofConstructionFailure,
    /// The backend rejected a proof.
    ProofVerificationFailure,
}

use vstd::arithmetic::power2::pow2;
use vstd::arithmetic::power2::lemma_pow2_adds;
use vstd::arithmetic::power2::lemma_pow2_pos;
use vstd::arithmetic::div_mod::lemma_div_denominator;
use vstd::arithmetic::div_mod::lemma_div_pos_is_pos;

/// Number of bits needed to write `number` in binary: the least `n`
/// with `number < 2^n`.
pub fn count_bits(number: u64) -> (r: usize)
    ensures
        r <= 64,
        (number as nat) < pow2(r as nat),
        r > 0 ==> pow2((r - 1) as nat) <= number as nat,
{
    let mut x: u64 = number;
    let mut n: usize = 0;
    proof {
        assert(pow2(0) == 1) by {
            vstd::arithmetic::power2::lemma2_to64();
        }
    }
    while x > 0
        invariant
            n <= 64,
            x as nat == number as nat / pow2(n as nat),
            n > 0 ==> number as nat / pow2((n - 1) as nat) >= 1,
            n == 64 ==> x == 0,
        decreases x,
    {
        proof {
            lemma_pow2_pos(n as nat);
            lemma_pow2_adds(n as nat, 1);
            assert(pow2(1) == 2) by {
                vstd::arithmetic::power2::lemma2_to64();
            }
            lemma_div_denominator(number as int, pow2(n as nat) as int, 2);
            assert(number as nat / pow2((n + 1) as nat) == x as nat / 2);
            if n + 1 == 64 {
                assert((number as nat) < pow2(64)) by {
                    vstd::arithmetic::power2::lemma2_to64_rest();
                    assert(pow2(64) == 0x10000000000000000);
                }
                if number as nat / pow2(64) > 0 {
                    lemma_div_pos_is_pos(number as int, pow2(64) as int);
                    vstd::arithmetic::div_mod::lemma_basic_div(
                        number as int,
                        pow2(64) as int,
                    );
                }
            }
        }
        x = x / 2;
        n = n + 1;
    }
    proof {
        lemma_pow2_pos(n as nat);
        assert(number as nat / pow2(n as nat) == 0);
        vstd::arithmetic::div_mod::lemma_small_div_converse(
            number as int,
            pow2(n as nat) as int,
        );
        if n > 0 {
            lemma_pow2_pos((n - 1) as nat);
            if (number as nat) < pow2((n - 1) as nat) {
                vstd::arithmetic::div_mod::lemma_basic_div(
                    number as int,
                    pow2((n - 1) as nat) as int,
                );
            }
        }
    }
    n
}

} // verus!
