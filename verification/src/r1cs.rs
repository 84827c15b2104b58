//! The circuit model: variables, linear combinations, and the sequence of
//! constraint-system operations a gadget emits.
//!
//! Gadgets record their operations against a [`ConstraintRecorder`]; the
//! recorded sequence has an exact mathematical semantics
//! ([`ops_holds`]): which witness assignments satisfy the circuit.  A replay
//! layer elsewhere hands the same sequence, in the same order, to the proving
//! backend, so the order recorded here is the public circuit shape.

use vstd::prelude::*;

verus! {

use crate::field::FieldElem;
use crate::field::group_order;

/// A wire of the constraint system.
#[derive(Clone, Copy, Debug, PartialEq, Eq, Structural)]
pub enum Var {
    /// The distinguished constant-one wire.
    One,
    /// An input bound by a commitment, by commitment index.
    Committed(usize),
    /// A low-level allocated wire, by allocation index.
    Allocated(usize),
    /// The left input of a multiplication gate.
    MulLeft(usize),
    /// The right input of a multiplication gate.
    MulRight(usize),
    /// The output of a multiplication gate.
    MulOut(usize),
}

/// Whether a variable only references wires that exist, given the number of
/// committed, allocated, and multiplier wires.
pub open spec fn var_in_bounds(v: Var, nc: nat, na: nat, nm: nat) -> bool {
    match v {
        Var::One => true,
        Var::Committed(i) => i < nc,
        Var::Allocated(i) => i < na,
        Var::MulLeft(i) => i < nm,
        Var::MulRight(i) => i < nm,
        Var::MulOut(i) => i < nm,
    }
}

/// A witness assignment, as mathematics: one field value per wire.
pub struct Asgn {
    pub committed: Seq<nat>,
    pub allocated: Seq<nat>,
    pub mul_left: Seq<nat>,
    pub mul_right: Seq<nat>,
    pub mul_out: Seq<nat>,
}

/// The value an assignment gives to a variable.
pub open spec fn var_val(a: Asgn, v: Var) -> nat {
    match v {
        Var::One => 1,
        Var::Committed(i) => a.committed[i as int],
        Var::Allocated(i) => a.allocated[i as int],
        Var::MulLeft(i) => a.mul_left[i as int],
        Var::MulRight(i) => a.mul_right[i as int],
        Var::MulOut(i) => a.mul_out[i as int],
    }
}

/// Assignment shape and reduction: right lengths, all values below `L`.
pub open spec fn asgn_wf(a: Asgn, nc: nat, na: nat, nm: nat) -> bool {
    &&& a.committed.len() == nc
    &&& a.allocated.len() == na
    &&& a.mul_left.len() == nm
    &&& a.mul_right.len() == nm
    &&& a.mul_out.len() == nm
    &&& forall|i: int| 0 <= i < a.committed.len() ==> #[trigger] a.committed[i] < group_order()
    &&& forall|i: int| 0 <= i < a.allocated.len() ==> #[trigger] a.allocated[i] < group_order()
    &&& forall|i: int| 0 <= i < a.mul_left.len() ==> #[trigger] a.mul_left[i] < group_order()
    &&& forall|i: int| 0 <= i < a.mul_right.len() ==> #[trigger] a.mul_right[i] < group_order()
    &&& forall|i: int| 0 <= i < a.mul_out.len() ==> #[trigger] a.mul_out[i] < group_order()
}

/// An ordered linear combination of wires with field-element coefficients.
#[derive(Clone, Debug)]
pub struct LinComb {
    pub terms: Vec<(Var, FieldElem)>,
}

impl View for LinComb {
    type V = Seq<(Var, nat)>;

    open spec fn view(&self) -> Seq<(Var, nat)> {
        self.terms@.map_values(|t: (Var, FieldElem)| (t.0, t.1.as_nat()))
    }
}

/// One term is well formed: its variable exists and its coefficient is
/// reduced.
pub open spec fn term_wf(t: (Var, nat), nc: nat, na: nat, nm: nat) -> bool {
    var_in_bounds(t.0, nc, na, nm) && t.1 < group_order()
}

/// All terms of a linear combination are well formed.
pub open spec fn lc_wf(terms: Seq<(Var, nat)>, nc: nat, na: nat, nm: nat) -> bool {
    forall|i: int| 0 <= i < terms.len() ==> #[trigger] term_wf(terms[i], nc, na, nm)
}

/// The integer value of a linear combination under an assignment (before
/// reduction mod `L`).
pub open spec fn lc_sum(a: Asgn, terms: Seq<(Var, nat)>) -> int
    decreases terms.len(),
{
    if terms.len() == 0 {
        0
    } else {
        lc_sum(a, terms.drop_last()) + terms.last().1 * var_val(a, terms.last().0)
    }
}

/// A linear combination is constrained to zero when its value vanishes
/// mod `L`.
pub open spec fn lc_zero(a: Asgn, terms: Seq<(Var, nat)>) -> bool {
    lc_sum(a, terms) % (group_order() as int) == 0
}

impl LinComb {
    /// The empty (additive identity) combination.
    pub fn new() -> (r: LinComb)
        ensures
            r@ =~= Seq::<(Var, nat)>::empty(),
    {
        LinComb { terms: Vec::new() }
    }

    /// A single-term combination.
    pub fn from_term(v: Var, c: FieldElem) -> (r: LinComb)
        ensures
            r@ =~= seq![(v, c.as_nat())],
    {
        let mut terms: Vec<(Var, FieldElem)> = Vec::new();
        terms.push((v, c));
        LinComb { terms }
    }

    /// Append one term.
    pub fn push_term(&mut self, v: Var, c: FieldElem)
        ensures
            final(self)@ =~= old(self)@.push((v, c.as_nat())),
    {
        self.terms.push((v, c));
    }

    /// Concatenate another combination onto this one (the model of adding
    /// two linear combinations: terms are kept, not collected).
    pub fn append(&mut self, other: &LinComb)
        ensures
            final(self)@ =~= old(self)@ + other@,
    {
        let mut i: usize = 0;
        while i < other.terms.len()
            invariant
                i <= other.terms.len(),
                self@ =~= old(self)@ + other@.subrange(0, i as int),
            decreases other.terms.len() - i,
        {
            let t = other.terms[i];
            let ghost pre: Seq<(Var, nat)> = self@;
            self.terms.push(t);
            proof {
                assert(self@ =~= pre.push((t.0, t.1.as_nat())));
                assert(other@.subrange(0, i + 1) =~= other@.subrange(0, i as int).push(
                    other@[i as int],
                ));
                assert(self@ =~= old(self)@ + other@.subrange(0, i + 1));
            }
            i = i + 1;
        }
        proof {
            assert(other@.subrange(0, other@.len() as int) =~= other@);
        }
    }

    /// An explicit copy with the same view.
    pub fn duplicate(&self) -> (r: LinComb)
        ensures
            r@ =~= self@,
    {
        let mut terms: Vec<(Var, FieldElem)> = Vec::new();
        let mut i: usize = 0;
        while i < self.terms.len()
            invariant
                i <= self.terms.len(),
                terms@ =~= self.terms@.subrange(0, i as int),
            decreases self.terms.len() - i,
        {
            terms.push(self.terms[i]);
            proof {
                assert(terms@ =~= self.terms@.subrange(0, i + 1));
            }
            i = i + 1;
        }
        proof {
            assert(self.terms@.subrange(0, self.terms@.len() as int) =~= self.terms@);
        }
        LinComb { terms }
    }

    /// Number of terms.
    pub fn len(&self) -> (r: usize)
        ensures
            r == self@.len(),
    {
        self.terms.len()
    }
}

/// One recorded constraint-system operation.
#[derive(Clone, Debug)]
pub enum Op {
    /// Allocate a multiplication gate directly, with optional prover-side
    /// input assignments (left, right).
    AllocMul(Option<(FieldElem, FieldElem)>),
    /// Allocate a single low-level wire, with an optional assignment.
    Alloc(Option<FieldElem>),
    /// Allocate a multiplication gate and constrain its inputs to equal the
    /// two linear combinations.
    Multiply(LinComb, LinComb),
    /// Constrain a linear combination to zero.
    Constrain(LinComb),
}

/// The mathematical image of one operation.
#[verifier::ext_equal]
pub enum OpV {
    AllocMulV(Option<(nat, nat)>),
    AllocV(Option<nat>),
    MultiplyV(Seq<(Var, nat)>, Seq<(Var, nat)>),
    ConstrainV(Seq<(Var, nat)>),
}

impl View for Op {
    type V = OpV;

    open spec fn view(&self) -> OpV {
        match self {
            Op::AllocMul(asg) => OpV::AllocMulV(
                match asg {
                    Some(p) => Some((p.0.as_nat(), p.1.as_nat())),
                    None => None,
                },
            ),
            Op::Alloc(asg) => OpV::AllocV(
                match asg {
                    Some(x) => Some(x.as_nat()),
                    None => None,
                },
            ),
            Op::Multiply(l, r) => OpV::MultiplyV(l@, r@),
            Op::Constrain(t) => OpV::ConstrainV(t@),
        }
    }
}

/// How many multiplication gates an operation allocates.
pub open spec fn op_muls(op: OpV) -> nat {
    match op {
        OpV::AllocMulV(_) => 1,
        OpV::AllocV(_) => 0,
        OpV::MultiplyV(_, _) => 1,
        OpV::ConstrainV(_) => 0,
    }
}

/// How many low-level wires an operation allocates.
pub open spec fn op_allocs(op: OpV) -> nat {
    match op {
        OpV::AllocMulV(_) => 0,
        OpV::AllocV(_) => 1,
        OpV::MultiplyV(_, _) => 0,
        OpV::ConstrainV(_) => 0,
    }
}

/// Multiplication gates allocated by a sequence of operations.
pub open spec fn count_muls(ops: Seq<OpV>) -> nat
    decreases ops.len(),
{
    if ops.len() == 0 {
        0
    } else {
        count_muls(ops.drop_last()) + op_muls(ops.last())
    }
}

/// Low-level wires allocated by a sequence of operations.
pub open spec fn count_allocs(ops: Seq<OpV>) -> nat
    decreases ops.len(),
{
    if ops.len() == 0 {
        0
    } else {
        count_allocs(ops.drop_last()) + op_allocs(ops.last())
    }
}

/// One operation is well formed at a point where `nc`, `na`, `nm` wires
/// exist already.
pub open spec fn op_wf(op: OpV, nc: nat, na: nat, nm: nat) -> bool {
    match op {
        OpV::AllocMulV(asg) => match asg {
            Some(p) => p.0 < group_order() && p.1 < group_order(),
            None => true,
        },
        OpV::AllocV(asg) => match asg {
            Some(x) => x < group_order(),
            None => true,
        },
        OpV::MultiplyV(l, r) => lc_wf(l, nc, na, nm) && lc_wf(r, nc, na, nm),
        OpV::ConstrainV(t) => lc_wf(t, nc, na, nm),
    }
}

/// A sequence of operations is well formed when every operation only
/// references wires allocated before it.
pub open spec fn ops_wf(ops: Seq<OpV>, nc: nat, na: nat, nm: nat) -> bool
    decreases ops.len(),
{
    if ops.len() == 0 {
        true
    } else {
        ops_wf(ops.drop_last(), nc, na, nm) && op_wf(
            ops.last(),
            nc,
            na + count_allocs(ops.drop_last()),
            nm + count_muls(ops.drop_last()),
        )
    }
}

/// Whether the multiplication gate at index `i` holds under an assignment:
/// its output wire carries the product of its input wires.
pub open spec fn mul_gate_holds(a: Asgn, i: nat) -> bool {
    a.mul_out[i as int] == (a.mul_left[i as int] * a.mul_right[i as int]) % group_order()
}

/// Whether one operation holds under an assignment, where it allocates
/// multiplier index `mi` (if any).
pub open spec fn op_holds(a: Asgn, op: OpV, mi: nat) -> bool {
    match op {
        OpV::AllocMulV(_) => mul_gate_holds(a, mi),
        OpV::AllocV(_) => true,
        OpV::MultiplyV(l, r) => mul_gate_holds(a, mi) && lc_sum(a, l) % (
        group_order() as int) == a.mul_left[mi as int] && lc_sum(a, r) % (
        group_order() as int) == a.mul_right[mi as int],
        OpV::ConstrainV(t) => lc_zero(a, t),
    }
}

/// Whether every operation of a sequence holds under an assignment, with
/// multiplier indices starting at `mi`.
pub open spec fn ops_holds(a: Asgn, ops: Seq<OpV>, mi: nat) -> bool
    decreases ops.len(),
{
    if ops.len() == 0 {
        true
    } else {
        ops_holds(a, ops.drop_last(), mi) && op_holds(
            a,
            ops.last(),
            mi + count_muls(ops.drop_last()),
        )
    }
}

/// Counts of a three-element sequence, spelled out.
pub proof fn lemma_counts_seq3(a: OpV, b: OpV, c: OpV)
    ensures
        count_muls(seq![a, b, c]) == op_muls(a) + op_muls(b) + op_muls(c),
        count_allocs(seq![a, b, c]) == op_allocs(a) + op_allocs(b) + op_allocs(c),
{
    let s = seq![a, b, c];
    assert(s.drop_last() =~= seq![a, b]);
    assert(seq![a, b].drop_last() =~= seq![a]);
    assert(seq![a].drop_last() =~= Seq::<OpV>::empty());
    assert(count_muls(Seq::<OpV>::empty()) == 0);
    assert(count_allocs(Seq::<OpV>::empty()) == 0);
    assert(count_muls(seq![a]) == op_muls(a));
    assert(count_allocs(seq![a]) == op_allocs(a));
    assert(count_muls(seq![a, b]) == op_muls(a) + op_muls(b));
    assert(count_allocs(seq![a, b]) == op_allocs(a) + op_allocs(b));
}

/// Counting distributes over concatenation.
pub proof fn lemma_count_append(s: Seq<OpV>, t: Seq<OpV>)
    ensures
        count_muls(s + t) == count_muls(s) + count_muls(t),
        count_allocs(s + t) == count_allocs(s) + count_allocs(t),
    decreases t.len(),
{
    if t.len() == 0 {
        assert(s + t =~= s);
    } else {
        lemma_count_append(s, t.drop_last());
        assert((s + t).drop_last() =~= s + t.drop_last());
        assert((s + t).last() == t.last());
    }
}

/// Well-formedness splits over concatenation.
pub proof fn lemma_ops_wf_append(s: Seq<OpV>, t: Seq<OpV>, nc: nat, na: nat, nm: nat)
    ensures
        ops_wf(s + t, nc, na, nm) == (ops_wf(s, nc, na, nm) && ops_wf(
            t,
            nc,
            na + count_allocs(s),
            nm + count_muls(s),
        )),
    decreases t.len(),
{
    if t.len() == 0 {
        assert(s + t =~= s);
    } else {
        lemma_ops_wf_append(s, t.drop_last(), nc, na, nm);
        lemma_count_append(s, t.drop_last());
        assert((s + t).drop_last() =~= s + t.drop_last());
        assert((s + t).last() == t.last());
    }
}

/// Satisfaction splits over concatenation.
pub proof fn lemma_ops_holds_append(a: Asgn, s: Seq<OpV>, t: Seq<OpV>, mi: nat)
    ensures
        ops_holds(a, s + t, mi) == (ops_holds(a, s, mi) && ops_holds(
            a,
            t,
            mi + count_muls(s),
        )),
    decreases t.len(),
{
    if t.len() == 0 {
        assert(s + t =~= s);
    } else {
        lemma_ops_holds_append(a, s, t.drop_last(), mi);
        lemma_count_append(s, t.drop_last());
        assert((s + t).drop_last() =~= s + t.drop_last());
        assert((s + t).last() == t.last());
    }
}

/// Records the operations a circuit performs against a constraint system,
/// in order.
#[derive(Debug)]
pub struct ConstraintRecorder {
    pub n_committed: usize,
    pub n_allocated: usize,
    pub n_mul: usize,
    pub ops: Vec<Op>,
}

impl ConstraintRecorder {
    /// The recorded operations, as mathematics.
    pub open spec fn ops_spec(&self) -> Seq<OpV> {
        self.ops@.map_values(|o: Op| o@)
    }

    /// The recorder's counters agree with its operations, and the
    /// operations are well formed.
    pub open spec fn wf(&self) -> bool {
        &&& self.n_allocated == count_allocs(self.ops_spec())
        &&& self.n_mul == count_muls(self.ops_spec())
        &&& ops_wf(self.ops_spec(), self.n_committed as nat, 0, 0)
    }

    /// A fresh recorder for a circuit with `n_committed` committed wires.
    pub fn new(n_committed: usize) -> (r: ConstraintRecorder)
        ensures
            r.wf(),
            r.n_committed == n_committed,
            r.n_allocated == 0,
            r.n_mul == 0,
            r.ops_spec() =~= Seq::<OpV>::empty(),
    {
        ConstraintRecorder { n_committed, n_allocated: 0, n_mul: 0, ops: Vec::new() }
    }

    /// Allocate a multiplication gate directly, as the backend's
    /// `allocate_multiplier` does, returning its left, right and output
    /// wires.
    pub fn allocate_multiplier(&mut self, assignment: Option<(FieldElem, FieldElem)>) -> (r: (
        Var,
        Var,
        Var,
    ))
        requires
            old(self).wf(),
            old(self).n_mul < usize::MAX,
            match assignment {
                Some(p) => p.0.wf() && p.1.wf(),
                None => true,
            },
        ensures
            final(self).wf(),
            final(self).n_committed == old(self).n_committed,
            final(self).n_allocated == old(self).n_allocated,
            final(self).n_mul == old(self).n_mul + 1,
            final(self).ops_spec() =~= old(self).ops_spec().push(
                OpV::AllocMulV(
                    match assignment {
                        Some(p) => Some((p.0.as_nat(), p.1.as_nat())),
                        None => None,
                    },
                ),
            ),
            r == (Var::MulLeft(old(self).n_mul), Var::MulRight(old(self).n_mul), Var::MulOut(
                old(self).n_mul,
            )),
    {
        let idx = self.n_mul;
        let op = Op::AllocMul(assignment);
        proof {
            lemma_push_one(self.ops@, op);
        }
        self.ops.push(op);
        self.n_mul = idx + 1;
        (Var::MulLeft(idx), Var::MulRight(idx), Var::MulOut(idx))
    }

    /// Allocate one low-level wire, as the backend's `allocate` does.
    pub fn allocate(&mut self, assignment: Option<FieldElem>) -> (r: Var)
        requires
            old(self).wf(),
            old(self).n_allocated < usize::MAX,
            match assignment {
                Some(x) => x.wf(),
                None => true,
            },
        ensures
            final(self).wf(),
            final(self).n_committed == old(self).n_committed,
            final(self).n_allocated == old(self).n_allocated + 1,
            final(self).n_mul == old(self).n_mul,
            final(self).ops_spec() =~= old(self).ops_spec().push(
                OpV::AllocV(
                    match assignment {
                        Some(x) => Some(x.as_nat()),
                        None => None,
                    },
                ),
            ),
            r == Var::Allocated(old(self).n_allocated),
    {
        let idx = self.n_allocated;
        let op = Op::Alloc(assignment);
        proof {
            lemma_push_one(self.ops@, op);
        }
        self.ops.push(op);
        self.n_allocated = idx + 1;
        Var::Allocated(idx)
    }

    /// Allocate a multiplication gate whose inputs are constrained to the
    /// two given linear combinations.
    pub fn multiply(&mut self, left: LinComb, right: LinComb) -> (r: (Var, Var, Var))
        requires
            old(self).wf(),
            old(self).n_mul < usize::MAX,
            lc_wf(
                left@,
                old(self).n_committed as nat,
                old(self).n_allocated as nat,
                old(self).n_mul as nat,
            ),
            lc_wf(
                right@,
                old(self).n_committed as nat,
                old(self).n_allocated as nat,
                old(self).n_mul as nat,
            ),
        ensures
            final(self).wf(),
            final(self).n_committed == old(self).n_committed,
            final(self).n_allocated == old(self).n_allocated,
            final(self).n_mul == old(self).n_mul + 1,
            final(self).ops_spec() =~= old(self).ops_spec().push(OpV::MultiplyV(left@, right@)),
            r == (Var::MulLeft(old(self).n_mul), Var::MulRight(old(self).n_mul), Var::MulOut(
                old(self).n_mul,
            )),
    {
        let idx = self.n_mul;
        let op = Op::Multiply(left, right);
        proof {
            lemma_push_one(self.ops@, op);
        }
        self.ops.push(op);
        self.n_mul = idx + 1;
        (Var::MulLeft(idx), Var::MulRight(idx), Var::MulOut(idx))
    }

    /// Constrain a linear combination to equal zero.
    pub fn constrain(&mut self, lc: LinComb)
        requires
            old(self).wf(),
            lc_wf(
                lc@,
                old(self).n_committed as nat,
                old(self).n_allocated as nat,
                old(self).n_mul as nat,
            ),
        ensures
            final(self).wf(),
            final(self).n_committed == old(self).n_committed,
            final(self).n_allocated == old(self).n_allocated,
            final(self).n_mul == old(self).n_mul,
            final(self).ops_spec() =~= old(self).ops_spec().push(OpV::ConstrainV(lc@)),
    {
        let op = Op::Constrain(lc);
        proof {
            lemma_push_one(self.ops@, op);
        }
        self.ops.push(op);
    }

    /// Number of constraints recorded so far (multiplications included).
    pub fn num_ops(&self) -> (r: usize)
        ensures
            r == self.ops_spec().len(),
    {
        self.ops.len()
    }
}

/// Mapping the view over a push appends the view of the pushed element.
proof fn lemma_push_one(ops: Seq<Op>, op: Op)
    ensures
        ops.push(op).map_values(|o: Op| o@) =~= ops.map_values(|o: Op| o@).push(op@),
        ops.map_values(|o: Op| o@).push(op@).drop_last() =~= ops.map_values(|o: Op| o@),
        ops.map_values(|o: Op| o@).push(op@).last() == op@,
{
}

/// An executable witness assignment: one field element per wire.
#[derive(Clone, Debug)]
pub struct Witness {
    pub committed: Vec<FieldElem>,
    pub allocated: Vec<FieldElem>,
    pub mul_left: Vec<FieldElem>,
    pub mul_right: Vec<FieldElem>,
    pub mul_out: Vec<FieldElem>,
}

impl View for Witness {
    type V = Asgn;

    open spec fn view(&self) -> Asgn {
        Asgn {
            committed: self.committed@.map_values(|x: FieldElem| x.as_nat()),
            allocated: self.allocated@.map_values(|x: FieldElem| x.as_nat()),
            mul_left: self.mul_left@.map_values(|x: FieldElem| x.as_nat()),
            mul_right: self.mul_right@.map_values(|x: FieldElem| x.as_nat()),
            mul_out: self.mul_out@.map_values(|x: FieldElem| x.as_nat()),
        }
    }
}

impl Witness {
    /// All stored elements are reduced.
    pub open spec fn elems_wf(&self) -> bool {
        &&& forall|i: int| 0 <= i < self.committed@.len() ==> (
        #[trigger] self.committed@[i]).wf()
        &&& forall|i: int| 0 <= i < self.allocated@.len() ==> (
        #[trigger] self.allocated@[i]).wf()
        &&& forall|i: int| 0 <= i < self.mul_left@.len() ==> (#[trigger] self.mul_left@[i]).wf()
        &&& forall|i: int| 0 <= i < self.mul_right@.len() ==> (
        #[trigger] self.mul_right@[i]).wf()
        &&& forall|i: int| 0 <= i < self.mul_out@.len() ==> (#[trigger] self.mul_out@[i]).wf()
    }

    /// Look up the value of a variable.
    pub fn value_of(&self, v: Var) -> (r: FieldElem)
        requires
            var_in_bounds(
                v,
                self.committed@.len(),
                self.allocated@.len(),
                self.mul_left@.len(),
            ),
            self@.mul_right.len() == self@.mul_left.len(),
            self@.mul_out.len() == self@.mul_left.len(),
            self.elems_wf(),
        ensures
            r.as_nat() == var_val(self@, v),
            r.wf(),
    {
        proof {
            crate::field::lemma_group_order_bounds();
            vstd::arithmetic::power2::lemma_pow2_pos(252);
        }
        match v {
            Var::One => FieldElem::one(),
            Var::Committed(i) => self.committed[i],
            Var::Allocated(i) => self.allocated[i],
            Var::MulLeft(i) => self.mul_left[i],
            Var::MulRight(i) => self.mul_right[i],
            Var::MulOut(i) => self.mul_out[i],
        }
    }
}


/// Widening the wire counts preserves well-formedness of a combination.
pub proof fn lemma_lc_wf_widen(
    terms: Seq<(Var, nat)>,
    nc: nat,
    na1: nat,
    nm1: nat,
    na2: nat,
    nm2: nat,
)
    requires
        lc_wf(terms, nc, na1, nm1),
        na1 <= na2,
        nm1 <= nm2,
    ensures
        lc_wf(terms, nc, na2, nm2),
{
    assert forall|i: int| 0 <= i < terms.len() implies #[trigger] term_wf(
        terms[i],
        nc,
        na2,
        nm2,
    ) by {
        assert(term_wf(terms[i], nc, na1, nm1));
    }
}

/// The operation at one index of a well-formed sequence is well formed at
/// the wire counts reached just before it.
pub proof fn lemma_ops_wf_index(s: Seq<OpV>, nc: nat, na: nat, nm: nat, i: int)
    requires
        ops_wf(s, nc, na, nm),
        0 <= i < s.len(),
    ensures
        op_wf(
            s[i],
            nc,
            na + count_allocs(s.subrange(0, i)),
            nm + count_muls(s.subrange(0, i)),
        ),
    decreases s.len(),
{
    if i == s.len() - 1 {
        assert(s.drop_last() =~= s.subrange(0, i));
    } else {
        assert(s.drop_last()[i] == s[i]);
        assert(s.drop_last().subrange(0, i) =~= s.subrange(0, i));
        lemma_ops_wf_index(s.drop_last(), nc, na, nm, i);
    }
}

/// Once a prefix fails, the whole sequence fails.
pub proof fn lemma_holds_prefix_fails(a: Asgn, s: Seq<OpV>, j: int, mi: nat)
    requires
        0 <= j <= s.len(),
        !ops_holds(a, s.subrange(0, j), mi),
    ensures
        !ops_holds(a, s, mi),
    decreases s.len() - j,
{
    if j == s.len() {
        assert(s.subrange(0, j) =~= s);
    } else {
        assert(s.subrange(0, j + 1).drop_last() =~= s.subrange(0, j));
        lemma_holds_prefix_fails(a, s, j + 1, mi);
    }
}

/// The value of a linear combination is never negative.
pub proof fn lemma_lc_sum_nonneg(a: Asgn, terms: Seq<(Var, nat)>)
    ensures
        lc_sum(a, terms) >= 0,
    decreases terms.len(),
{
    if terms.len() > 0 {
        lemma_lc_sum_nonneg(a, terms.drop_last());
    }
}

/// Evaluate a linear combination under a witness, reduced mod `L`.
pub fn lc_eval(lc: &LinComb, w: &Witness) -> (r: FieldElem)
    requires
        lc_wf(lc@, w.committed@.len() as nat, w.allocated@.len() as nat, w.mul_left@.len() as nat),
        w.mul_right@.len() == w.mul_left@.len(),
        w.mul_out@.len() == w.mul_left@.len(),
        w.elems_wf(),
    ensures
        r.wf(),
        r.as_nat() == lc_sum(w@, lc@) % (group_order() as int),
{
    let mut acc = FieldElem::zero();
    let mut i: usize = 0;
    proof {
        crate::field::lemma_group_order_bounds();
        vstd::arithmetic::power2::lemma_pow2_pos(252);
        assert(lc@.subrange(0, 0) =~= Seq::<(Var, nat)>::empty());
        vstd::arithmetic::div_mod::lemma_small_mod(0, group_order());
    }
    while i < lc.terms.len()
        invariant
            lc_wf(
                lc@,
                w.committed@.len() as nat,
                w.allocated@.len() as nat,
                w.mul_left@.len() as nat,
            ),
            w.mul_right@.len() == w.mul_left@.len(),
            w.mul_out@.len() == w.mul_left@.len(),
            w.elems_wf(),
            i <= lc.terms.len(),
            acc.wf(),
            acc.as_nat() == lc_sum(w@, lc@.subrange(0, i as int)) % (group_order() as int),
        decreases lc.terms.len() - i,
    {
        let (v, c) = lc.terms[i];
        proof {
            assert(lc@[i as int] == (v, c.as_nat()));
            assert(term_wf(
                lc@[i as int],
                w.committed@.len() as nat,
                w.allocated@.len() as nat,
                w.mul_left@.len() as nat,
            ));
        }
        let val = w.value_of(v);
        let term = c.mul_mod(&val);
        let next = acc.add_mod(&term);
        proof {
            let prefix = lc@.subrange(0, i as int);
            let ext = lc@.subrange(0, i + 1);
            assert(ext.drop_last() =~= prefix);
            assert(ext.last() == (v, c.as_nat()));
            let s0: int = lc_sum(w@, prefix);
            let tv: int = (c.as_nat() * var_val(w@, v)) as int;
            assert(lc_sum(w@, ext) == s0 + tv);
            lemma_lc_sum_nonneg(w@, prefix);
            vstd::arithmetic::div_mod::lemma_add_mod_noop(s0, tv, group_order() as int);
        }
        acc = next;
        i = i + 1;
    }
    proof {
        assert(lc@.subrange(0, lc@.len() as int) =~= lc@);
    }
    acc
}

/// Check every recorded operation against a witness: returns exactly
/// whether the witness satisfies the recorded circuit.
pub fn check_satisfied(cs: &ConstraintRecorder, w: &Witness) -> (r: bool)
    requires
        cs.wf(),
        w.elems_wf(),
        w.committed@.len() == cs.n_committed,
        w.allocated@.len() == cs.n_allocated,
        w.mul_left@.len() == cs.n_mul,
        w.mul_right@.len() == cs.n_mul,
        w.mul_out@.len() == cs.n_mul,
    ensures
        r == ops_holds(w@, cs.ops_spec(), 0),
{
    let ghost s: Seq<OpV> = cs.ops_spec();
    let mut i: usize = 0;
    let mut mi: usize = 0;
    proof {
        assert(s.subrange(0, 0) =~= Seq::<OpV>::empty());
    }
    while i < cs.ops.len()
        invariant
            cs.wf(),
            w.elems_wf(),
            w.committed@.len() == cs.n_committed,
            w.allocated@.len() == cs.n_allocated,
            w.mul_left@.len() == cs.n_mul,
            w.mul_right@.len() == cs.n_mul,
            w.mul_out@.len() == cs.n_mul,
            s == cs.ops_spec(),
            i <= cs.ops.len(),
            mi == count_muls(s.subrange(0, i as int)),
            ops_holds(w@, s.subrange(0, i as int), 0),
        decreases cs.ops.len() - i,
    {
        let ghost prefix = s.subrange(0, i as int);
        let ghost ext = s.subrange(0, i + 1);
        proof {
            assert(ext.drop_last() =~= prefix);
            assert(ext.last() == s[i as int]);
            assert(s =~= prefix + s.subrange(i as int, s.len() as int));
            lemma_count_append(prefix, s.subrange(i as int, s.len() as int));
            lemma_ops_wf_index(s, cs.n_committed as nat, 0, 0, i as int);
            if op_muls(s[i as int]) == 1 {
                assert(s.subrange(i as int, s.len() as int).subrange(
                    1,
                    s.subrange(i as int, s.len() as int).len() as int,
                ) =~= s.subrange(i + 1, s.len() as int));
                assert(count_muls(s.subrange(0, i + 1)) + count_muls(
                    s.subrange(i + 1, s.len() as int),
                ) == cs.n_mul as nat) by {
                    assert(s =~= s.subrange(0, i + 1) + s.subrange(i + 1, s.len() as int));
                    lemma_count_append(
                        s.subrange(0, i + 1),
                        s.subrange(i + 1, s.len() as int),
                    );
                }
            }
        }
        let op_ok: bool = match &cs.ops[i] {
            Op::AllocMul(_) => {
                let prod = w.mul_left[mi].mul_mod(&w.mul_right[mi]);
                let ok = elem_eq(&w.mul_out[mi], &prod);
                proof {
                    lemma_map_index(w.mul_out@, mi as int);
                    lemma_map_index(w.mul_left@, mi as int);
                    lemma_map_index(w.mul_right@, mi as int);
                }
                ok
            },
            Op::Alloc(_) => true,
            Op::Multiply(l, r) => {
                proof {
                    lemma_lc_wf_widen(
                        l@,
                        cs.n_committed as nat,
                        count_allocs(prefix),
                        count_muls(prefix),
                        cs.n_allocated as nat,
                        cs.n_mul as nat,
                    );
                    lemma_lc_wf_widen(
                        r@,
                        cs.n_committed as nat,
                        count_allocs(prefix),
                        count_muls(prefix),
                        cs.n_allocated as nat,
                        cs.n_mul as nat,
                    );
                }
                let lv = lc_eval(l, w);
                let rv = lc_eval(r, w);
                let prod = w.mul_left[mi].mul_mod(&w.mul_right[mi]);
                let ok = elem_eq(&w.mul_out[mi], &prod) && elem_eq(&lv, &w.mul_left[mi])
                    && elem_eq(&rv, &w.mul_right[mi]);
                proof {
                    lemma_map_index(w.mul_out@, mi as int);
                    lemma_map_index(w.mul_left@, mi as int);
                    lemma_map_index(w.mul_right@, mi as int);
                }
                ok
            },
            Op::Constrain(t) => {
                proof {
                    lemma_lc_wf_widen(
                        t@,
                        cs.n_committed as nat,
                        count_allocs(prefix),
                        count_muls(prefix),
                        cs.n_allocated as nat,
                        cs.n_mul as nat,
                    );
                }
                let tv = lc_eval(t, w);
                let z = FieldElem::zero();
                elem_eq(&tv, &z)
            },
        };
        if !op_ok {
            proof {
                assert(!op_holds(w@, s[i as int], count_muls(prefix)));
                assert(!ops_holds(w@, ext, 0));
                lemma_holds_prefix_fails(w@, s, i + 1, 0);
            }
            return false;
        }
        proof {
            assert(op_holds(w@, s[i as int], count_muls(prefix)));
            assert(ops_holds(w@, ext, 0));
        }
        if cs.ops.len() > 0 {
            mi = match &cs.ops[i] {
                Op::AllocMul(_) => mi + 1,
                Op::Multiply(_, _) => mi + 1,
                _ => mi,
            };
        }
        i = i + 1;
    }
    proof {
        assert(s.subrange(0, s.len() as int) =~= s);
    }
    true
}

/// Field elements are equal exactly when their values are equal.
fn elem_eq(a: &FieldElem, b: &FieldElem) -> (r: bool)
    ensures
        r == (a.as_nat() == b.as_nat()),
{
    proof {
        if a.as_nat() == b.as_nat() {
            crate::field::lemma_as_nat_injective(*a, *b);
        }
    }
    a == b
}

/// Indexing commutes with taking values.
proof fn lemma_map_index(v: Seq<FieldElem>, i: int)
    requires
        0 <= i < v.len(),
    ensures
        v.map_values(|x: FieldElem| x.as_nat())[i] == v[i].as_nat(),
{
}


/// The shape of an operation: everything except prover-side assignments.
/// Prover and verifier runs of a gadget must produce equal shape sequences.
#[verifier::ext_equal]
pub enum OpShape {
    AllocMulS,
    AllocS,
    MultiplyS(Seq<(Var, nat)>, Seq<(Var, nat)>),
    ConstrainS(Seq<(Var, nat)>),
}

/// Erase the assignments of one operation.
pub open spec fn op_shape(op: OpV) -> OpShape {
    match op {
        OpV::AllocMulV(_) => OpShape::AllocMulS,
        OpV::AllocV(_) => OpShape::AllocS,
        OpV::MultiplyV(l, r) => OpShape::MultiplyS(l, r),
        OpV::ConstrainV(t) => OpShape::ConstrainS(t),
    }
}

/// Erase the assignments of a whole recording: the public circuit shape.
pub open spec fn shapes(ops: Seq<OpV>) -> Seq<OpShape> {
    ops.map_values(|o: OpV| op_shape(o))
}

/// Shapes distribute over concatenation.
pub proof fn lemma_shapes_append(s: Seq<OpV>, t: Seq<OpV>)
    ensures
        shapes(s + t) =~= shapes(s) + shapes(t),
{
}

/// Shapes distribute over push.
pub proof fn lemma_shapes_push(s: Seq<OpV>, x: OpV)
    ensures
        shapes(s.push(x)) =~= shapes(s).push(op_shape(x)),
{
}

/// Satisfaction of a three-element sequence, spelled out.
pub proof fn lemma_holds_seq3(a: Asgn, x: OpV, y: OpV, z: OpV, mi: nat)
    ensures
        ops_holds(a, seq![x, y, z], mi) == (op_holds(a, x, mi) && op_holds(
            a,
            y,
            mi + op_muls(x),
        ) && op_holds(a, z, mi + op_muls(x) + op_muls(y))),
{
    let s = seq![x, y, z];
    assert(s.drop_last() =~= seq![x, y]);
    assert(seq![x, y].drop_last() =~= seq![x]);
    assert(seq![x].drop_last() =~= Seq::<OpV>::empty());
    lemma_counts_seq3(x, y, z);
    assert(count_muls(Seq::<OpV>::empty()) == 0);
    assert(count_muls(seq![x]) == op_muls(x));
    assert(count_muls(seq![x, y]) == op_muls(x) + op_muls(y));
    assert(ops_holds(a, Seq::<OpV>::empty(), mi));
    assert(ops_holds(a, seq![x], mi) == op_holds(a, x, mi));
    assert(ops_holds(a, seq![x, y], mi) == (ops_holds(a, seq![x], mi) && op_holds(
        a,
        y,
        mi + op_muls(x),
    )));
    assert(ops_holds(a, s, mi) == (ops_holds(a, seq![x, y], mi) && op_holds(
        a,
        z,
        mi + op_muls(x) + op_muls(y),
    )));
}

/// The value of a one-term combination.
pub proof fn lemma_lc_sum1(a: Asgn, t: (Var, nat))
    ensures
        lc_sum(a, seq![t]) == t.1 * var_val(a, t.0),
{
    assert(seq![t].drop_last() =~= Seq::<(Var, nat)>::empty());
    assert(lc_sum(a, Seq::<(Var, nat)>::empty()) == 0);
}

/// The value of a three-term combination.
pub proof fn lemma_lc_sum3(a: Asgn, t1: (Var, nat), t2: (Var, nat), t3: (Var, nat))
    ensures
        lc_sum(a, seq![t1, t2, t3]) == t1.1 * var_val(a, t1.0) + t2.1 * var_val(a, t2.0)
            + t3.1 * var_val(a, t3.0),
{
    let s = seq![t1, t2, t3];
    assert(s.drop_last() =~= seq![t1, t2]);
    assert(seq![t1, t2].drop_last() =~= seq![t1]);
    lemma_lc_sum1(a, t1);
    assert(lc_sum(a, seq![t1, t2]) == lc_sum(a, seq![t1]) + t2.1 * var_val(a, t2.0));
    assert(lc_sum(a, s) == lc_sum(a, seq![t1, t2]) + t3.1 * var_val(a, t3.0));
}

/// The value of a five-term combination.
pub proof fn lemma_lc_sum5(
    a: Asgn,
    t1: (Var, nat),
    t2: (Var, nat),
    t3: (Var, nat),
    t4: (Var, nat),
    t5: (Var, nat),
)
    ensures
        lc_sum(a, seq![t1, t2, t3, t4, t5]) == t1.1 * var_val(a, t1.0) + t2.1 * var_val(
            a,
            t2.0,
        ) + t3.1 * var_val(a, t3.0) + t4.1 * var_val(a, t4.0) + t5.1 * var_val(a, t5.0),
{
    let s = seq![t1, t2, t3, t4, t5];
    assert(s.drop_last() =~= seq![t1, t2, t3, t4]);
    assert(seq![t1, t2, t3, t4].drop_last() =~= seq![t1, t2, t3]);
    lemma_lc_sum3(a, t1, t2, t3);
    assert(lc_sum(a, seq![t1, t2, t3, t4]) == lc_sum(a, seq![t1, t2, t3]) + t4.1
        * var_val(a, t4.0));
    assert(lc_sum(a, s) == lc_sum(a, seq![t1, t2, t3, t4]) + t5.1 * var_val(a, t5.0));
}

} // verus!
