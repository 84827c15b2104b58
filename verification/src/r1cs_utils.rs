//! The witness model and the small gadgets: the range gadget, the chunk
//! gadget, and the helper that constrains a linear combination to a scalar.
//!
//! Each gadget's contract pins down the exact operation sequence it records,
//! so callers can reason about both the circuit's shape and, through
//! [`crate::r1cs::ops_holds`], which witnesses satisfy it.

use vstd::prelude::*;

verus! {

use vstd::arithmetic::power2::pow2;
use vstd::arithmetic::power2::lemma_pow2_adds;
use vstd::arithmetic::power2::lemma2_to64;
use vstd::arithmetic::div_mod::lemma_small_mod;
use crate::field::FieldElem;
use crate::field::group_order;
use crate::field::lemma_group_order_bounds;
use crate::r1cs::Var;
use crate::r1cs::OpV;
use crate::r1cs::LinComb;
use crate::r1cs::ConstraintRecorder;
use crate::r1cs::var_in_bounds;
use crate::r1cs::lc_wf;
use crate::r1cs::term_wf;
use crate::r1cs::count_muls;
use crate::r1cs::count_allocs;
use crate::r1cs::lemma_count_append;
use crate::r1cs::lemma_counts_seq3;
use crate::r1cs::Asgn;
use crate::r1cs::var_val;
use crate::r1cs::ops_holds;
use crate::r1cs::op_holds;
use crate::r1cs::mul_gate_holds;
use crate::r1cs::lc_zero;
use crate::r1cs::lc_sum;
use crate::r1cs::shapes;
use crate::r1cs::lemma_shapes_append;
use crate::r1cs::lemma_shapes_push;
use crate::r1cs::lemma_holds_seq3;
use crate::r1cs::lemma_lc_sum1;
use crate::r1cs::lemma_lc_sum3;
use crate::r1cs::lemma_lc_sum5;
use crate::r1cs::lemma_ops_holds_append;
use crate::GadgetError;

/// A wire carrying a bounded unsigned quantity, with its assignment when
/// the holder is a prover and `None` for a verifier.
#[derive(Clone, Copy, Debug)]
pub struct AllocatedQuantity {
    pub variable: Var,
    pub assignment: Option<u64>,
}

/// A wire carrying a field element, with its assignment when the holder is
/// a prover and `None` for a verifier.
#[derive(Clone, Copy, Debug)]
pub struct AllocatedScalar {
    pub variable: Var,
    pub assignment: Option<FieldElem>,
}

/// Bit `i` of a 64-bit quantity.
pub open spec fn bit_of(q: u64, i: nat) -> nat {
    (q as nat / pow2(i)) % 2
}

/// The negated-unit coefficient `L - 1`, which stands for `-1` in the
/// field.
pub open spec fn neg_one_val() -> nat {
    (group_order() - 1) as nat
}

/// The multiplier assignment the range gadget gives bit `i`:
/// `(1 - bit, bit)` for a prover, absent for a verifier.
pub open spec fn range_bit_asg(assignment: Option<u64>, i: nat) -> Option<(nat, nat)> {
    match assignment {
        Some(q) => Some(((1 - bit_of(q, i) as int) as nat, bit_of(q, i))),
        None => None,
    }
}

/// The three operations the range gadget records for bit `i`, where the
/// gate allocated for this bit has index `m`.
pub open spec fn range_bit_ops(assignment: Option<u64>, i: nat, m: nat) -> Seq<OpV> {
    seq![
        OpV::AllocMulV(range_bit_asg(assignment, i)),
        OpV::ConstrainV(seq![(Var::MulOut(m as usize), 1nat)]),
        OpV::ConstrainV(
            seq![
                (Var::MulLeft(m as usize), 1nat),
                (Var::MulRight(m as usize), 1nat),
                (Var::One, neg_one_val()),
            ],
        ),
    ]
}

/// The operations of the range gadget's bit loop for bits `0..n`, with
/// gate indices starting at `m0`.
pub open spec fn range_loop_ops(assignment: Option<u64>, n: nat, m0: nat) -> Seq<OpV>
    decreases n,
{
    if n == 0 {
        Seq::empty()
    } else {
        range_loop_ops(assignment, (n - 1) as nat, m0) + range_bit_ops(
            assignment,
            (n - 1) as nat,
            (m0 + n - 1) as nat,
        )
    }
}

/// The terms of the range gadget's final reconstruction constraint:
/// `-v + sum_i b_i 2^i`.
pub open spec fn range_sum_terms(v: Var, n: nat, m0: nat) -> Seq<(Var, nat)>
    decreases n,
{
    if n == 0 {
        seq![(v, neg_one_val())]
    } else {
        range_sum_terms(v, (n - 1) as nat, m0).push(
            (Var::MulRight((m0 + n - 1) as usize), pow2((n - 1) as nat) % group_order()),
        )
    }
}

/// Everything the range gadget records: the bit loop, then the
/// reconstruction constraint.
pub open spec fn range_ops(v: Var, assignment: Option<u64>, n: nat, m0: nat) -> Seq<OpV> {
    range_loop_ops(assignment, n, m0).push(OpV::ConstrainV(range_sum_terms(v, n, m0)))
}

/// The loop ops allocate one gate per bit and nothing else.
pub proof fn lemma_range_loop_counts(assignment: Option<u64>, n: nat, m0: nat)
    ensures
        range_loop_ops(assignment, n, m0).len() == 3 * n,
        count_muls(range_loop_ops(assignment, n, m0)) == n,
        count_allocs(range_loop_ops(assignment, n, m0)) == 0,
    decreases n,
{
    if n > 0 {
        lemma_range_loop_counts(assignment, (n - 1) as nat, m0);
        lemma_count_append(
            range_loop_ops(assignment, (n - 1) as nat, m0),
            range_bit_ops(assignment, (n - 1) as nat, (m0 + n - 1) as nat),
        );
        let b = range_bit_ops(assignment, (n - 1) as nat, (m0 + n - 1) as nat);
        lemma_counts_seq3(b[0], b[1], b[2]);
        assert(b =~= seq![b[0], b[1], b[2]]);
    }
}

/// Enforces that the quantity `v` lies in the range `[0, 2^bit_size)` by
/// decomposing it into constrained bits and reconstructing it.
pub fn positive_no_gadget(
    cs: &mut ConstraintRecorder,
    v: AllocatedQuantity,
    bit_size: usize,
) -> (r: Result<(), GadgetError>)
    requires
        old(cs).wf(),
        bit_size <= 64,
        old(cs).n_mul + bit_size <= usize::MAX,
        var_in_bounds(
            v.variable,
            old(cs).n_committed as nat,
            old(cs).n_allocated as nat,
            old(cs).n_mul as nat,
        ),
    ensures
        final(cs).wf(),
        r == Ok::<(), GadgetError>(()),
        final(cs).ops_spec() =~~= old(cs).ops_spec() + range_ops(
            v.variable,
            v.assignment,
            bit_size as nat,
            old(cs).n_mul as nat,
        ),
        final(cs).n_mul == old(cs).n_mul + bit_size,
        final(cs).n_allocated == old(cs).n_allocated,
        final(cs).n_committed == old(cs).n_committed,
{
    let ghost m0: nat = cs.n_mul as nat;
    let one = FieldElem::one();
    let neg_one = neg_one_elem();
    let mut constraint_v = LinComb::from_term(v.variable, neg_one);
    let mut exp_2 = FieldElem::one();
    let mut i: usize = 0;
    proof {
        lemma_group_order_bounds();
        lemma2_to64();
        assert(range_loop_ops(v.assignment, 0, m0) =~= Seq::<OpV>::empty());
        assert(cs.ops_spec() + Seq::<OpV>::empty() =~~= cs.ops_spec());
        assert(constraint_v@ =~= range_sum_terms(v.variable, 0, m0));
        lemma_small_mod(1, group_order());
    }
    while i < bit_size
        invariant
            cs.wf(),
            bit_size <= 64,
            i <= bit_size,
            cs.n_committed == old(cs).n_committed,
            cs.n_allocated == old(cs).n_allocated,
            cs.n_mul == old(cs).n_mul + i,
            old(cs).n_mul + bit_size <= usize::MAX,
            m0 == old(cs).n_mul as nat,
            var_in_bounds(
                v.variable,
                cs.n_committed as nat,
                cs.n_allocated as nat,
                m0,
            ),
            cs.ops_spec() =~~= old(cs).ops_spec() + range_loop_ops(
                v.assignment,
                i as nat,
                m0,
            ),
            constraint_v@ =~= range_sum_terms(v.variable, i as nat, m0),
            exp_2.wf(),
            exp_2.as_nat() == pow2(i as nat) % group_order(),
            one.as_nat() == 1,
            neg_one.as_nat() == neg_one_val(),
        decreases bit_size - i,
    {
        let assignment: Option<(FieldElem, FieldElem)> = match v.assignment {
            Some(q) => {
                let bit: u64 = (q >> (i as u64)) & 1;
                proof {
                    vstd::bits::lemma_u64_shr_is_div(q, i as u64);
                    assert(((q >> (i as u64)) & 1) == (q >> (i as u64)) % 2) by (bit_vector);
                }
                Some((FieldElem::from_u64(1 - bit), FieldElem::from_u64(bit)))
            },
            None => None,
        };
        let ghost pre = cs.ops_spec();
        let (a_v, b_v, o_v) = cs.allocate_multiplier(assignment);
        let mut lc_bool = LinComb::from_term(a_v, one);
        lc_bool.push_term(b_v, one);
        lc_bool.push_term(Var::One, neg_one);
        proof {
            lemma_group_order_bounds();
        }
        cs.constrain(LinComb::from_term(o_v, one));
        cs.constrain(lc_bool);
        constraint_v.push_term(b_v, exp_2);
        proof {
            assert(cs.ops_spec() =~~= old(cs).ops_spec() + range_loop_ops(
                v.assignment,
                (i + 1) as nat,
                m0,
            ));
            assert(constraint_v@ =~= range_sum_terms(v.variable, (i + 1) as nat, m0));
        }
        let next_exp = exp_2.add_mod(&exp_2);
        proof {
            lemma2_to64();
            vstd::arithmetic::div_mod::lemma_add_mod_noop(
                pow2(i as nat) as int,
                pow2(i as nat) as int,
                group_order() as int,
            );
            lemma_pow2_adds(i as nat, 1);
            assert(pow2(1) == 2);
            assert(pow2((i + 1) as nat) == pow2(i as nat) * 2);
        }
        exp_2 = next_exp;
        i = i + 1;
    }
    proof {
        lemma_range_sum_wf(
            v.variable,
            bit_size as nat,
            m0,
            cs.n_committed as nat,
            cs.n_allocated as nat,
        );
    }
    cs.constrain(constraint_v);
    Ok(())
}

/// The reconstruction terms only reference `v` and gates `m0..m0+n`, with
/// reduced coefficients.
proof fn lemma_range_sum_wf(v: Var, n: nat, m0: nat, nc: nat, na: nat)
    requires
        var_in_bounds(v, nc, na, m0),
    ensures
        lc_wf(range_sum_terms(v, n, m0), nc, na, m0 + n),
    decreases n,
{
    lemma_group_order_bounds();
    vstd::arithmetic::power2::lemma_pow2_pos(252);
    if n == 0 {
    } else {
        lemma_range_sum_wf(v, (n - 1) as nat, m0, nc, na);
        let terms = range_sum_terms(v, n, m0);
        let prev = range_sum_terms(v, (n - 1) as nat, m0);
        vstd::arithmetic::div_mod::lemma_mod_bound(
            pow2((n - 1) as nat) as int,
            group_order() as int,
        );
        assert forall|i: int| 0 <= i < terms.len() implies #[trigger] term_wf(
            terms[i],
            nc,
            na,
            m0 + n,
        ) by {
            if i < prev.len() {
                assert(term_wf(prev[i], nc, na, m0 + (n - 1) as nat));
            }
        }
    }
}

/// The constant `-1` of the field.
fn neg_one_elem() -> (r: FieldElem)
    ensures
        r.wf(),
        r.as_nat() == neg_one_val(),
{
    let one = FieldElem::one();
    proof {
        lemma_group_order_bounds();
        vstd::arithmetic::power2::lemma_pow2_pos(252);
        lemma_small_mod((group_order() - 1) as nat, group_order());
    }
    one.neg_mod()
}

/// The single reconstruction constraint the chunk gadget records:
/// `-z + u + v*2^16 + x*2^32 + y*2^48`.
pub open spec fn chunk_terms(u: Var, v: Var, x: Var, y: Var, z: Var) -> Seq<(Var, nat)> {
    seq![
        (z, neg_one_val()),
        (u, 1nat),
        (v, pow2(16)),
        (x, pow2(32)),
        (y, pow2(48)),
    ]
}

/// The chunk gadget's whole recording: one constraint.
pub open spec fn chunk_ops(u: Var, v: Var, x: Var, y: Var, z: Var) -> Seq<OpV> {
    seq![OpV::ConstrainV(chunk_terms(u, v, x, y, z))]
}

/// Enforces that `z` is the radix-`2^16` composition of the four chunks
/// `u, v, x, y`.  No range check is implied: the caller pairs this with
/// separate 16-bit range checks on the chunks.
pub fn chunk_gadget(
    cs: &mut ConstraintRecorder,
    u: AllocatedQuantity,
    v: AllocatedQuantity,
    x: AllocatedQuantity,
    y: AllocatedQuantity,
    z: AllocatedQuantity,
) -> (r: Result<(), GadgetError>)
    requires
        old(cs).wf(),
        var_in_bounds(
            u.variable,
            old(cs).n_committed as nat,
            old(cs).n_allocated as nat,
            old(cs).n_mul as nat,
        ),
        var_in_bounds(
            v.variable,
            old(cs).n_committed as nat,
            old(cs).n_allocated as nat,
            old(cs).n_mul as nat,
        ),
        var_in_bounds(
            x.variable,
            old(cs).n_committed as nat,
            old(cs).n_allocated as nat,
            old(cs).n_mul as nat,
        ),
        var_in_bounds(
            y.variable,
            old(cs).n_committed as nat,
            old(cs).n_allocated as nat,
            old(cs).n_mul as nat,
        ),
        var_in_bounds(
            z.variable,
            old(cs).n_committed as nat,
            old(cs).n_allocated as nat,
            old(cs).n_mul as nat,
        ),
    ensures
        final(cs).wf(),
        r == Ok::<(), GadgetError>(()),
        final(cs).ops_spec() =~~= old(cs).ops_spec() + chunk_ops(
            u.variable,
            v.variable,
            x.variable,
            y.variable,
            z.variable,
        ),
        final(cs).n_mul == old(cs).n_mul,
        final(cs).n_allocated == old(cs).n_allocated,
        final(cs).n_committed == old(cs).n_committed,
{
    let neg_one = neg_one_elem();
    let exp_16 = FieldElem::from_u64(0x10000);
    let exp_32 = FieldElem::from_u64(0x100000000);
    let exp_48 = FieldElem::from_u64(0x1000000000000);
    proof {
        lemma2_to64();
        lemma2_to64_rest_values();
        lemma_group_order_bounds();
        vstd::arithmetic::power2::lemma_pow2_pos(252);
    }
    let mut constraint_z = LinComb::from_term(z.variable, neg_one);
    constraint_z.push_term(u.variable, FieldElem::one());
    constraint_z.push_term(v.variable, exp_16);
    constraint_z.push_term(x.variable, exp_32);
    constraint_z.push_term(y.variable, exp_48);
    proof {
        assert(constraint_z@ =~= chunk_terms(
            u.variable,
            v.variable,
            x.variable,
            y.variable,
            z.variable,
        ));
        vstd::arithmetic::power2::lemma_pow2_strictly_increases(16, 252);
        vstd::arithmetic::power2::lemma_pow2_strictly_increases(32, 252);
        vstd::arithmetic::power2::lemma_pow2_strictly_increases(48, 252);
    }
    cs.constrain(constraint_z);
    proof {
        assert(final(cs).ops_spec() =~~= old(cs).ops_spec() + chunk_ops(
            u.variable,
            v.variable,
            x.variable,
            y.variable,
            z.variable,
        ));
    }
    Ok(())
}

/// Pins the powers of two the chunk gadget uses.
proof fn lemma2_to64_rest_values()
    ensures
        pow2(16) == 0x10000,
        pow2(32) == 0x100000000,
        pow2(48) == 0x1000000000000,
{
    lemma2_to64();
    vstd::arithmetic::power2::lemma2_to64_rest();
}

/// The additive inverse of a value mod `L`.
pub open spec fn neg_val(s: nat) -> nat {
    ((group_order() - s) % (group_order() as int)) as nat
}

/// The constraint recorded by [`constrain_lc_with_scalar`]: the linear
/// combination minus the scalar.
pub open spec fn lc_minus_scalar_terms(terms: Seq<(Var, nat)>, s: nat) -> Seq<(Var, nat)> {
    terms.push((Var::One, neg_val(s)))
}

/// Constrain a linear combination to be equal to a scalar.
pub fn constrain_lc_with_scalar(
    cs: &mut ConstraintRecorder,
    lc: LinComb,
    scalar: &FieldElem,
) -> (r: Result<(), GadgetError>)
    requires
        old(cs).wf(),
        scalar.wf(),
        lc_wf(
            lc@,
            old(cs).n_committed as nat,
            old(cs).n_allocated as nat,
            old(cs).n_mul as nat,
        ),
    ensures
        final(cs).wf(),
        r == Ok::<(), GadgetError>(()),
        final(cs).ops_spec() =~= old(cs).ops_spec().push(
            OpV::ConstrainV(lc_minus_scalar_terms(lc@, scalar.as_nat())),
        ),
        final(cs).n_mul == old(cs).n_mul,
        final(cs).n_allocated == old(cs).n_allocated,
        final(cs).n_committed == old(cs).n_committed,
{
    let mut lc2 = lc;
    let neg_s = scalar.neg_mod();
    proof {
        lemma_group_order_bounds();
        vstd::arithmetic::power2::lemma_pow2_pos(252);
        lemma_small_mod(scalar.as_nat(), group_order());
    }
    lc2.push_term(Var::One, neg_s);
    cs.constrain(lc2);
    Ok(())
}


/// A multiple of `m` strictly between `-m` and `m` is zero.
proof fn lemma_small_cong_zero(d: int, m: int)
    requires
        m > 0,
        -m < d < m,
        d % m == 0,
    ensures
        d == 0,
{
    vstd::arithmetic::div_mod::lemma_fundamental_div_mod(d, m);
    let quot = d / m;
    if quot >= 1 {
        vstd::arithmetic::mul::lemma_mul_inequality(1, quot, m);
        vstd::arithmetic::mul::lemma_mul_is_commutative(quot, m);
        vstd::arithmetic::mul::lemma_mul_basics(m);
        assert(false);
    }
    if quot <= -1 {
        vstd::arithmetic::mul::lemma_mul_inequality(quot, -1, m);
        vstd::arithmetic::mul::lemma_mul_is_commutative(quot, m);
        vstd::arithmetic::mul::lemma_mul_basics(m);
        assert(false);
    }
    vstd::arithmetic::mul::lemma_mul_basics(m);
    assert(0int * m == 0) by {
        vstd::arithmetic::mul::lemma_mul_basics(m);
    }
}

// ------------------------------------------------------------------
// Topology: the circuit shape is independent of assignments.
// ------------------------------------------------------------------
/// The range gadget's bit loop has the same shape with or without
/// assignments.
proof fn lemma_range_loop_topology(a1: Option<u64>, a2: Option<u64>, n: nat, m0: nat)
    ensures
        shapes(range_loop_ops(a1, n, m0)) =~~= shapes(range_loop_ops(a2, n, m0)),
    decreases n,
{
    if n > 0 {
        lemma_range_loop_topology(a1, a2, (n - 1) as nat, m0);
        let g: nat = (m0 + n - 1) as nat;
        lemma_shapes_append(
            range_loop_ops(a1, (n - 1) as nat, m0),
            range_bit_ops(a1, (n - 1) as nat, g),
        );
        lemma_shapes_append(
            range_loop_ops(a2, (n - 1) as nat, m0),
            range_bit_ops(a2, (n - 1) as nat, g),
        );
        assert(shapes(range_bit_ops(a1, (n - 1) as nat, g)) =~~= shapes(
            range_bit_ops(a2, (n - 1) as nat, g),
        ));
    } else {
        assert(range_loop_ops(a1, 0, m0) =~= Seq::<OpV>::empty());
        assert(range_loop_ops(a2, 0, m0) =~= Seq::<OpV>::empty());
    }
}

/// Prover/verifier topology equality for the range gadget: the recorded
/// circuit's shape — number, order, and content of every operation apart
/// from prover-side assignments — is the same whether the quantity's
/// assignment is present or absent.
pub proof fn lemma_range_topology(v: Var, a1: Option<u64>, a2: Option<u64>, n: nat, m0: nat)
    ensures
        shapes(range_ops(v, a1, n, m0)) =~~= shapes(range_ops(v, a2, n, m0)),
{
    lemma_range_loop_topology(a1, a2, n, m0);
    lemma_shapes_push(
        range_loop_ops(a1, n, m0),
        OpV::ConstrainV(range_sum_terms(v, n, m0)),
    );
    lemma_shapes_push(
        range_loop_ops(a2, n, m0),
        OpV::ConstrainV(range_sum_terms(v, n, m0)),
    );
}

// ------------------------------------------------------------------
// Range gadget: satisfaction.
// ------------------------------------------------------------------
/// The natural bit assignment of the range gadget for quantity `q`:
/// gate `m0+i` carries `(1 - bit_i, bit_i)` with output zero.
pub open spec fn range_natural_asgn(a: Asgn, q: u64, n: nat, m0: nat) -> bool {
    &&& a.mul_left.len() >= m0 + n
    &&& a.mul_right.len() >= m0 + n
    &&& a.mul_out.len() >= m0 + n
    &&& forall|i: nat| i < n ==> #[trigger] a.mul_left[(m0 + i) as int] + bit_of(q, i) == 1
    &&& forall|i: nat| i < n ==> #[trigger] a.mul_right[(m0 + i) as int] == bit_of(q, i)
    &&& forall|i: nat| i < n ==> #[trigger] a.mul_out[(m0 + i) as int] == 0
}

/// The value reconstructed from the gadget's bit wires:
/// `sum_i mul_right[m0+i] * 2^i`.
pub open spec fn bits_val(a: Asgn, n: nat, m0: nat) -> nat
    decreases n,
{
    if n == 0 {
        0
    } else {
        bits_val(a, (n - 1) as nat, m0) + a.mul_right[(m0 + n - 1) as int] * pow2(
            (n - 1) as nat,
        )
    }
}

/// Under the natural assignment, every per-bit operation of the range
/// gadget holds.
proof fn lemma_range_loop_complete(a: Asgn, q: u64, asg: Option<u64>, n: nat, m0: nat)
    requires
        m0 + n <= usize::MAX,
        range_natural_asgn(a, q, n, m0),
    ensures
        ops_holds(a, range_loop_ops(asg, n, m0), m0),
    decreases n,
{
    lemma_group_order_bounds();
    vstd::arithmetic::power2::lemma_pow2_pos(252);
    if n > 0 {
        let i: nat = (n - 1) as nat;
        let g: nat = (m0 + n - 1) as nat;
        lemma_range_loop_complete(a, q, asg, i, m0);
        lemma_range_loop_counts(asg, i, m0);
        lemma_ops_holds_append(
            a,
            range_loop_ops(asg, i, m0),
            range_bit_ops(asg, i, g),
            m0,
        );
        let l: nat = a.mul_left[g as int];
        let b: nat = a.mul_right[g as int];
        assert(b == bit_of(q, i));
        assert(l + bit_of(q, i) == 1);
        assert(b <= 1);
        assert(l * b == 0) by {
            vstd::arithmetic::mul::lemma_mul_basics(l as int);
            vstd::arithmetic::mul::lemma_mul_basics(b as int);
        }
        assert(mul_gate_holds(a, g)) by {
            lemma_small_mod(0, group_order());
        }
        let bops = range_bit_ops(asg, i, g);
        lemma_holds_seq3(a, bops[0], bops[1], bops[2], g);
        assert(op_holds(a, bops[0], g));
        // the output-is-zero constraint
        assert(op_holds(a, bops[1], g + 1)) by {
            lemma_lc_sum1(a, (Var::MulOut(g as usize), 1nat));
            vstd::arithmetic::mul::lemma_mul_basics(
                var_val(a, Var::MulOut(g as usize)) as int,
            );
            lemma_small_mod(0, group_order());
        }
        // the booleanness constraint: l + b - 1 == 0 in the field
        assert(op_holds(a, bops[2], g + 1)) by {
            lemma_lc_sum3(
                a,
                (Var::MulLeft(g as usize), 1nat),
                (Var::MulRight(g as usize), 1nat),
                (Var::One, neg_one_val()),
            );
            vstd::arithmetic::mul::lemma_mul_basics(l as int);
            vstd::arithmetic::mul::lemma_mul_basics(b as int);
            vstd::arithmetic::mul::lemma_mul_basics(neg_one_val() as int);
            assert(lc_sum(
                a,
                seq![
                    (Var::MulLeft(g as usize), 1nat),
                    (Var::MulRight(g as usize), 1nat),
                    (Var::One, neg_one_val()),
                ],
            ) == group_order() as int);
            vstd::arithmetic::div_mod::lemma_mod_self_0(group_order() as int);
        }
    } else {
        assert(range_loop_ops(asg, 0, m0) =~= Seq::<OpV>::empty());
    }
}

/// The value of the reconstruction constraint, for any assignment of the
/// bit wires: `-v + bits_val` (over the integers, before reduction).
proof fn lemma_range_sum_value(a: Asgn, v: Var, n: nat, m0: nat)
    requires
        n <= 64,
        m0 + n <= usize::MAX,
        a.mul_right.len() >= m0 + n,
    ensures
        lc_sum(a, range_sum_terms(v, n, m0)) == neg_one_val() * var_val(a, v) + bits_val(
            a,
            n,
            m0,
        ),
    decreases n,
{
    lemma_group_order_bounds();
    if n == 0 {
        lemma_lc_sum1(a, (v, neg_one_val()));
    } else {
        let i: nat = (n - 1) as nat;
        lemma_range_sum_value(a, v, i, m0);
        let terms = range_sum_terms(v, n, m0);
        assert(terms.drop_last() =~= range_sum_terms(v, i, m0));
        vstd::arithmetic::power2::lemma_pow2_strictly_increases(i, 252);
        lemma_small_mod(pow2(i), group_order());
        assert(terms.last() == (Var::MulRight((m0 + n - 1) as usize), pow2(i)));
        let bv: nat = a.mul_right[(m0 + n - 1) as int];
        assert(var_val(a, Var::MulRight((m0 + n - 1) as usize)) == bv);
        assert(pow2(i) * bv == bv * pow2(i)) by {
            vstd::arithmetic::mul::lemma_mul_is_commutative(pow2(i) as int, bv as int);
        }
    }
}

/// Under the natural assignment, the bit wires reconstruct `q mod 2^n`.
proof fn lemma_bits_val_natural(a: Asgn, q: u64, n: nat, m0: nat)
    requires
        n <= 64,
        range_natural_asgn(a, q, n, m0),
    ensures
        bits_val(a, n, m0) == (q as nat) % pow2(n),
    decreases n,
{
    lemma2_to64();
    if n == 0 {
        assert(pow2(0) == 1);
        assert((q as nat) % 1 == 0) by {
            vstd::arithmetic::div_mod::lemma_mod_self_0(1);
            vstd::arithmetic::div_mod::lemma_small_mod(0, 1);
            vstd::arithmetic::div_mod::lemma_fundamental_div_mod(q as int, 1);
            vstd::arithmetic::mul::lemma_mul_basics(q as int);
            vstd::arithmetic::div_mod::lemma_basic_div(0, 1);
            vstd::arithmetic::div_mod::lemma_mod_bound(q as int, 1);
        }
    } else {
        let i: nat = (n - 1) as nat;
        lemma_bits_val_natural(a, q, i, m0);
        vstd::arithmetic::power2::lemma_pow2_pos(i);
        lemma_pow2_adds(i, 1);
        assert(pow2(1) == 2);
        vstd::arithmetic::div_mod::lemma_mod_breakdown(q as int, pow2(i) as int, 2);
        assert((q as nat) % pow2(n) == pow2(i) * bit_of(q, i) + (q as nat) % pow2(i));
        assert(a.mul_right[(m0 + n - 1) as int] == bit_of(q, i));
        assert(bit_of(q, i) * pow2(i) == pow2(i) * bit_of(q, i)) by {
            vstd::arithmetic::mul::lemma_mul_is_commutative(
                bit_of(q, i) as int,
                pow2(i) as int,
            );
        }
    }
}

/// Completeness of the range gadget: for any `q < 2^n` carried by the
/// checked wire, the natural bit assignment satisfies every recorded
/// constraint — with or without prover-side assignments present.
pub proof fn lemma_range_complete(a: Asgn, v: Var, q: u64, asg: Option<u64>, n: nat, m0: nat)
    requires
        n <= 64,
        m0 + n <= usize::MAX,
        (q as nat) < pow2(n),
        var_val(a, v) == q as nat,
        range_natural_asgn(a, q, n, m0),
    ensures
        ops_holds(a, range_ops(v, asg, n, m0), m0),
{
    lemma_group_order_bounds();
    lemma_range_loop_complete(a, q, asg, n, m0);
    let lops = range_loop_ops(asg, n, m0);
    let c = OpV::ConstrainV(range_sum_terms(v, n, m0));
    assert(range_ops(v, asg, n, m0).drop_last() =~= lops);
    assert(range_ops(v, asg, n, m0).last() == c);
    lemma_range_sum_value(a, v, n, m0);
    lemma_bits_val_natural(a, q, n, m0);
    lemma_small_mod(q as nat, pow2(n));
    let qn: int = q as int;
    assert(neg_one_val() * qn + qn == group_order() * qn) by {
        vstd::arithmetic::mul::lemma_mul_is_distributive_sub_other_way(
            qn,
            group_order() as int,
            1,
        );
        vstd::arithmetic::mul::lemma_mul_basics(qn);
    }
    assert((group_order() * qn) % (group_order() as int) == 0) by {
        vstd::arithmetic::div_mod::lemma_mod_multiples_basic(qn, group_order() as int);
        vstd::arithmetic::mul::lemma_mul_is_commutative(qn, group_order() as int);
    }
    assert(op_holds(a, c, n + count_muls(lops)));
}

/// Each gate of a satisfied range circuit forces its bit wire to be
/// idempotent in the field: `b*b == b (mod L)`.  Together with the
/// field's primality (not derived here) this makes every bit 0 or 1.
pub proof fn lemma_range_loop_sound(a: Asgn, asg: Option<u64>, n: nat, m0: nat)
    requires
        m0 + n <= usize::MAX,
        a.mul_left.len() >= m0 + n,
        a.mul_right.len() >= m0 + n,
        a.mul_out.len() >= m0 + n,
        forall|i: nat| i < n ==> #[trigger] a.mul_left[(m0 + i) as int] < group_order(),
        forall|i: nat| i < n ==> #[trigger] a.mul_right[(m0 + i) as int] < group_order(),
        forall|i: nat| i < n ==> #[trigger] a.mul_out[(m0 + i) as int] < group_order(),
        ops_holds(a, range_loop_ops(asg, n, m0), m0),
    ensures
        forall|i: nat|
            i < n ==> (#[trigger] a.mul_right[(m0 + i) as int] * a.mul_right[(m0
                + i) as int]) % group_order() == a.mul_right[(m0 + i) as int],
    decreases n,
{
    lemma_group_order_bounds();
    vstd::arithmetic::power2::lemma_pow2_pos(252);
    if n > 0 {
        let i: nat = (n - 1) as nat;
        let g: nat = (m0 + n - 1) as nat;
        lemma_range_loop_counts(asg, i, m0);
        lemma_ops_holds_append(
            a,
            range_loop_ops(asg, i, m0),
            range_bit_ops(asg, i, g),
            m0,
        );
        lemma_range_loop_sound(a, asg, i, m0);
        let bops = range_bit_ops(asg, i, g);
        lemma_holds_seq3(a, bops[0], bops[1], bops[2], g);
        let l: nat = a.mul_left[g as int];
        let b: nat = a.mul_right[g as int];
        let o: nat = a.mul_out[g as int];
        // gate: o == (l*b) % L
        assert(mul_gate_holds(a, g));
        // output-zero constraint: o == 0, so (l*b) % L == 0
        assert(lc_zero(a, seq![(Var::MulOut(g as usize), 1nat)]));
        lemma_lc_sum1(a, (Var::MulOut(g as usize), 1nat));
        assert(1nat * o == o) by {
            vstd::arithmetic::mul::lemma_mul_basics(o as int);
        }
        assert(o == 0) by {
            lemma_small_mod(o, group_order());
        }
        // booleanness constraint: l + b + (L-1) == 0 mod L
        assert(lc_zero(
            a,
            seq![
                (Var::MulLeft(g as usize), 1nat),
                (Var::MulRight(g as usize), 1nat),
                (Var::One, neg_one_val()),
            ],
        ));
        lemma_lc_sum3(
            a,
            (Var::MulLeft(g as usize), 1nat),
            (Var::MulRight(g as usize), 1nat),
            (Var::One, neg_one_val()),
        );
        assert(1nat * l == l && 1nat * b == b) by {
            vstd::arithmetic::mul::lemma_mul_basics(l as int);
            vstd::arithmetic::mul::lemma_mul_basics(b as int);
        }
        assert(neg_one_val() * 1 == neg_one_val()) by {
            vstd::arithmetic::mul::lemma_mul_basics(neg_one_val() as int);
        }
        let gi: int = group_order() as int;
        assert((l + b + (group_order() - 1)) % gi == 0);
        // so (l + b) % L == 1
        assert((l as int + b as int) % gi == 1) by {
            vstd::arithmetic::div_mod::lemma_mod_multiples_vanish(
                1,
                l as int + b as int - 1,
                gi,
            );
            vstd::arithmetic::div_mod::lemma_mod_equivalence(l as int + b as int, 1, gi);
            lemma_small_mod(1, group_order());
        }
        // multiply both sides by b
        let k: int = l as int + b as int;
        assert((k * (b as int)) % gi == b) by {
            vstd::arithmetic::div_mod::lemma_mul_mod_noop_left(k, b as int, gi);
            vstd::arithmetic::mul::lemma_mul_basics(b as int);
            lemma_small_mod(b, group_order());
        }
        assert(k * (b as int) == l * b + b * b) by {
            vstd::arithmetic::mul::lemma_mul_is_distributive_add_other_way(
                b as int,
                l as int,
                b as int,
            );
        }
        assert((l as int * b) % gi == 0);
        assert(((b * b) as int) % gi == b) by {
            vstd::arithmetic::div_mod::lemma_add_mod_noop(
                (l * b) as int,
                (b * b) as int,
                gi,
            );
            vstd::arithmetic::div_mod::lemma_mod_bound((b * b) as int, gi);
            lemma_small_mod(((b * b) as nat % group_order()) as nat, group_order());
        }
        assert forall|j: nat| j < n implies (#[trigger] a.mul_right[(m0 + j) as int]
            * a.mul_right[(m0 + j) as int]) % group_order() == a.mul_right[(m0
            + j) as int] by {
            if j < i {
            } else {
                assert(j == i);
            }
        }
    }
}

/// The bit wires reconstruct at most `2^n - 1` when each carries 0 or 1.
proof fn lemma_bits_val_bound(a: Asgn, n: nat, m0: nat)
    requires
        a.mul_right.len() >= m0 + n,
        forall|i: nat| i < n ==> #[trigger] a.mul_right[(m0 + i) as int] <= 1,
    ensures
        bits_val(a, n, m0) < pow2(n),
    decreases n,
{
    vstd::arithmetic::power2::lemma_pow2_pos(n);
    if n == 0 {
        lemma2_to64();
    } else {
        let i: nat = (n - 1) as nat;
        lemma_bits_val_bound(a, i, m0);
        vstd::arithmetic::power2::lemma_pow2_pos(i);
        lemma_pow2_adds(i, 1);
        lemma2_to64();
        assert(a.mul_right[(m0 + i) as int] <= 1);
        assert(a.mul_right[(m0 + n - 1) as int] <= 1);
        assert(a.mul_right[(m0 + n - 1) as int] * pow2(i) <= 1 * pow2(i)) by {
            vstd::arithmetic::mul::lemma_mul_inequality(
                a.mul_right[(m0 + n - 1) as int] as int,
                1,
                pow2(i) as int,
            );
        }
        assert(1 * pow2(i) == pow2(i)) by {
            vstd::arithmetic::mul::lemma_mul_basics(pow2(i) as int);
        }
        assert(pow2(n) == 2 * pow2(i));
    }
}

/// Soundness of the range gadget's reconstruction, given boolean bit
/// wires: any satisfying assignment whose bit wires carry 0 or 1 forces
/// the checked wire to equal their weighted sum, which is below `2^n`.
pub proof fn lemma_range_sound_boolean(a: Asgn, v: Var, asg: Option<u64>, n: nat, m0: nat)
    requires
        n <= 64,
        m0 + n <= usize::MAX,
        a.mul_right.len() >= m0 + n,
        var_val(a, v) < group_order(),
        forall|i: nat| i < n ==> #[trigger] a.mul_right[(m0 + i) as int] <= 1,
        ops_holds(a, range_ops(v, asg, n, m0), m0),
    ensures
        var_val(a, v) == bits_val(a, n, m0),
        var_val(a, v) < pow2(n),
{
    lemma_group_order_bounds();
    let lops = range_loop_ops(asg, n, m0);
    let c = OpV::ConstrainV(range_sum_terms(v, n, m0));
    assert(range_ops(v, asg, n, m0).drop_last() =~= lops);
    assert(range_ops(v, asg, n, m0).last() == c);
    assert(lc_zero(a, range_sum_terms(v, n, m0)));
    lemma_range_sum_value(a, v, n, m0);
    lemma_bits_val_bound(a, n, m0);
    let q: int = var_val(a, v) as int;
    let sum: int = bits_val(a, n, m0) as int;
    let gi: int = group_order() as int;
    assert(neg_one_val() * q + sum == gi * q + (sum - q)) by {
        vstd::arithmetic::mul::lemma_mul_is_distributive_sub_other_way(q, gi, 1);
        vstd::arithmetic::mul::lemma_mul_basics(q);
        vstd::arithmetic::mul::lemma_mul_is_commutative(q, gi);
    }
    assert((sum - q) % gi == 0) by {
        vstd::arithmetic::div_mod::lemma_mod_multiples_vanish(q, sum - q, gi);
    }
    assert(pow2(n) <= pow2(64)) by {
        if n < 64 {
            vstd::arithmetic::power2::lemma_pow2_strictly_increases(n, 64);
        }
    }
    lemma_small_cong_zero(sum - q, gi);
}

// ------------------------------------------------------------------
// Chunk gadget: satisfaction.
// ------------------------------------------------------------------
/// The radix-`2^16` composition of four chunk values.
pub open spec fn chunk_combo(vu: nat, vv: nat, vx: nat, vy: nat) -> nat {
    vu + vv * pow2(16) + vx * pow2(32) + vy * pow2(48)
}

/// The chunk constraint's integer value under any assignment.
proof fn lemma_chunk_sum_value(a: Asgn, u: Var, v: Var, x: Var, y: Var, z: Var)
    ensures
        lc_sum(a, chunk_terms(u, v, x, y, z)) == neg_one_val() * var_val(a, z)
            + chunk_combo(var_val(a, u), var_val(a, v), var_val(a, x), var_val(a, y)),
{
    lemma_lc_sum5(
        a,
        (z, neg_one_val()),
        (u, 1nat),
        (v, pow2(16)),
        (x, pow2(32)),
        (y, pow2(48)),
    );
    vstd::arithmetic::mul::lemma_mul_basics(var_val(a, u) as int);
    assert(pow2(16) * var_val(a, v) == var_val(a, v) * pow2(16)) by {
        vstd::arithmetic::mul::lemma_mul_is_commutative(
            pow2(16) as int,
            var_val(a, v) as int,
        );
    }
    assert(pow2(32) * var_val(a, x) == var_val(a, x) * pow2(32)) by {
        vstd::arithmetic::mul::lemma_mul_is_commutative(
            pow2(32) as int,
            var_val(a, x) as int,
        );
    }
    assert(pow2(48) * var_val(a, y) == var_val(a, y) * pow2(48)) by {
        vstd::arithmetic::mul::lemma_mul_is_commutative(
            pow2(48) as int,
            var_val(a, y) as int,
        );
    }
}

/// Completeness of the chunk gadget: when `z` carries exactly the
/// composition of the four chunks, its one constraint is satisfied.
pub proof fn lemma_chunk_complete(a: Asgn, u: Var, v: Var, x: Var, y: Var, z: Var, mi: nat)
    requires
        var_val(a, z) < group_order(),
        var_val(a, z) == chunk_combo(
            var_val(a, u),
            var_val(a, v),
            var_val(a, x),
            var_val(a, y),
        ),
    ensures
        ops_holds(a, chunk_ops(u, v, x, y, z), mi),
{
    lemma_group_order_bounds();
    vstd::arithmetic::power2::lemma_pow2_pos(252);
    lemma_chunk_sum_value(a, u, v, x, y, z);
    let q: int = var_val(a, z) as int;
    let gi: int = group_order() as int;
    assert(neg_one_val() * q + q == gi * q) by {
        vstd::arithmetic::mul::lemma_mul_is_distributive_sub_other_way(q, gi, 1);
        vstd::arithmetic::mul::lemma_mul_basics(q);
        vstd::arithmetic::mul::lemma_mul_is_commutative(q, gi);
    }
    assert((gi * q) % gi == 0) by {
        vstd::arithmetic::div_mod::lemma_mod_multiples_basic(q, gi);
        vstd::arithmetic::mul::lemma_mul_is_commutative(q, gi);
    }
    let s = chunk_ops(u, v, x, y, z);
    assert(s.drop_last() =~= Seq::<OpV>::empty());
    assert(ops_holds(a, Seq::<OpV>::empty(), mi));
    assert(count_muls(Seq::<OpV>::empty()) == 0);
    assert(op_holds(a, s.last(), mi));
}

/// Soundness of the chunk gadget: a satisfying assignment with 16-bit
/// chunks forces `z` to be exactly their composition — so changing any
/// single chunk without updating `z` violates the constraint.
pub proof fn lemma_chunk_sound(a: Asgn, u: Var, v: Var, x: Var, y: Var, z: Var, mi: nat)
    requires
        ops_holds(a, chunk_ops(u, v, x, y, z), mi),
        var_val(a, u) < pow2(16),
        var_val(a, v) < pow2(16),
        var_val(a, x) < pow2(16),
        var_val(a, y) < pow2(16),
        var_val(a, z) < group_order(),
    ensures
        var_val(a, z) == chunk_combo(
            var_val(a, u),
            var_val(a, v),
            var_val(a, x),
            var_val(a, y),
        ),
{
    lemma_group_order_bounds();
    lemma2_to64();
    vstd::arithmetic::power2::lemma2_to64_rest();
    let s = chunk_ops(u, v, x, y, z);
    assert(s.drop_last() =~= Seq::<OpV>::empty());
    assert(count_muls(Seq::<OpV>::empty()) == 0);
    assert(op_holds(a, s.last(), mi));
    assert(lc_zero(a, chunk_terms(u, v, x, y, z)));
    lemma_chunk_sum_value(a, u, v, x, y, z);
    let q: int = var_val(a, z) as int;
    let gi: int = group_order() as int;
    let combo: int = chunk_combo(
        var_val(a, u),
        var_val(a, v),
        var_val(a, x),
        var_val(a, y),
    ) as int;
    assert(neg_one_val() * q + combo == gi * q + (combo - q)) by {
        vstd::arithmetic::mul::lemma_mul_is_distributive_sub_other_way(q, gi, 1);
        vstd::arithmetic::mul::lemma_mul_basics(q);
        vstd::arithmetic::mul::lemma_mul_is_commutative(q, gi);
    }
    assert((combo - q) % gi == 0) by {
        vstd::arithmetic::div_mod::lemma_mod_multiples_vanish(q, combo - q, gi);
    }
    assert(combo < pow2(64));
    lemma_small_cong_zero(combo - q, gi);
}

} // verus!
