//! Polynomial helpers over the scalar field, and a double-ended chain of
//! two sequences.
//!
//! The polynomial routines work coefficient-wise over [`FieldElem`]; each
//! one's contract states the value of every resulting coefficient mod `L`.

use vstd::prelude::*;

verus! {

use vstd::arithmetic::div_mod::lemma_small_mod;
use vstd::arithmetic::div_mod::lemma_add_mod_noop;
use vstd::arithmetic::div_mod::lemma_mul_mod_noop_left;
use vstd::arithmetic::div_mod::lemma_mul_mod_noop_right;
use vstd::arithmetic::mul::lemma_mul_is_associative;
use crate::field::FieldElem;
use crate::field::group_order;
use crate::field::lemma_group_order_bounds;

/// `b^e` over the integers.
pub open spec fn pow_nat(b: nat, e: nat) -> nat
    decreases e,
{
    if e == 0 {
        1
    } else {
        pow_nat(b, (e - 1) as nat) * b
    }
}

/// The value of `sum_i coeffs[i] * first * base^i`, over the integers.
pub open spec fn univar_sum(coeffs: Seq<nat>, first: nat, base: nat) -> int
    decreases coeffs.len(),
{
    if coeffs.len() == 0 {
        0
    } else {
        univar_sum(coeffs.drop_last(), first, base) + coeffs.last() * first * pow_nat(
            base,
            (coeffs.len() - 1) as nat,
        )
    }
}

/// The coefficient values of a polynomial.
pub open spec fn coeff_vals(v: Seq<FieldElem>) -> Seq<nat> {
    v.map_values(|x: FieldElem| x.as_nat())
}

/// All coefficients reduced.
pub open spec fn coeffs_wf(v: Seq<FieldElem>) -> bool {
    forall|i: int| 0 <= i < v.len() ==> (#[trigger] v[i]).wf()
}

/// The partial sums are never negative.
proof fn lemma_univar_sum_nonneg(coeffs: Seq<nat>, first: nat, base: nat)
    ensures
        univar_sum(coeffs, first, base) >= 0,
    decreases coeffs.len(),
{
    if coeffs.len() > 0 {
        lemma_univar_sum_nonneg(coeffs.drop_last(), first, base);
        vstd::arithmetic::mul::lemma_mul_nonnegative(
            (coeffs.last() * first) as int,
            pow_nat(base, (coeffs.len() - 1) as nat) as int,
        );
    }
}

/// Evaluate a univariate polynomial at the point described by
/// `first_power` and `base`: returns
/// `sum_i coeffs[i] * first_power * base^i  (mod L)`.
pub fn eval_univar_poly(
    coeffs: &Vec<FieldElem>,
    first_power: &FieldElem,
    base: &FieldElem,
) -> (r: FieldElem)
    requires
        coeffs_wf(coeffs@),
        first_power.wf(),
        base.wf(),
    ensures
        r.wf(),
        r.as_nat() == univar_sum(coeff_vals(coeffs@), first_power.as_nat(), base.as_nat())
            % (group_order() as int),
{
    let mut acc = FieldElem::zero();
    let mut power = *first_power;
    let mut i: usize = 0;
    proof {
        lemma_group_order_bounds();
        vstd::arithmetic::power2::lemma_pow2_pos(252);
        lemma_small_mod(0, group_order());
        lemma_small_mod(first_power.as_nat(), group_order());
        vstd::arithmetic::mul::lemma_mul_basics(first_power.as_nat() as int);
        assert(coeff_vals(coeffs@).subrange(0, 0) =~= Seq::<nat>::empty());
    }
    while i < coeffs.len()
        invariant
            coeffs_wf(coeffs@),
            first_power.wf(),
            base.wf(),
            i <= coeffs@.len(),
            acc.wf(),
            power.wf(),
            acc.as_nat() == univar_sum(
                coeff_vals(coeffs@).subrange(0, i as int),
                first_power.as_nat(),
                base.as_nat(),
            ) % (group_order() as int),
            power.as_nat() == (first_power.as_nat() * pow_nat(
                base.as_nat(),
                i as nat,
            )) % group_order(),
        decreases coeffs@.len() - i,
    {
        let c = coeffs[i];
        let term = c.mul_mod(&power);
        let next_acc = acc.add_mod(&term);
        let next_power = power.mul_mod(base);
        proof {
            let gi: int = group_order() as int;
            let cv: nat = c.as_nat();
            let f: nat = first_power.as_nat();
            let b: nat = base.as_nat();
            let pw: nat = pow_nat(b, i as nat);
            let vals = coeff_vals(coeffs@);
            assert(vals[i as int] == cv);
            let prefix = vals.subrange(0, i as int);
            let ext = vals.subrange(0, i + 1);
            assert(ext.drop_last() =~= prefix);
            assert(ext.last() == cv);
            // term == (cv * f * pw) % L
            lemma_mul_mod_noop_right(cv as int, (f * pw) as int, gi);
            assert(cv * (f * pw) == cv * f * pw) by {
                lemma_mul_is_associative(cv as int, f as int, pw as int);
            }
            // acc' == (sum + cv*f*pw) % L
            lemma_univar_sum_nonneg(prefix, f, b);
            lemma_add_mod_noop(
                univar_sum(prefix, f, b),
                (cv * f * pw) as int,
                gi,
            );
            // power' == (f * pw * b) % L
            lemma_mul_mod_noop_left((f * pw) as int, b as int, gi);
            assert(f * pw * b == f * (pw * b)) by {
                lemma_mul_is_associative(f as int, pw as int, b as int);
            }
            assert(pow_nat(b, (i + 1) as nat) == pw * b);
        }
        acc = next_acc;
        power = next_power;
        i = i + 1;
    }
    proof {
        assert(coeff_vals(coeffs@).subrange(0, coeffs@.len() as int) =~= coeff_vals(
            coeffs@,
        ));
    }
    acc
}

/// Scale each coefficient in place by `first_power * base^i`: evaluating
/// one variable of a bivariate polynomial.
pub fn eval_bivar_poly(coeffs: &mut Vec<FieldElem>, first_power: &FieldElem, base: &FieldElem)
    requires
        coeffs_wf(old(coeffs)@),
        first_power.wf(),
        base.wf(),
    ensures
        final(coeffs)@.len() == old(coeffs)@.len(),
        coeffs_wf(final(coeffs)@),
        forall|i: int|
            0 <= i < old(coeffs)@.len() ==> (#[trigger] final(coeffs)@[i]).as_nat() == (
            old(coeffs)@[i].as_nat() * first_power.as_nat() * pow_nat(
                base.as_nat(),
                i as nat,
            )) % group_order(),
{
    let mut power = *first_power;
    let mut i: usize = 0;
    proof {
        lemma_group_order_bounds();
        vstd::arithmetic::power2::lemma_pow2_pos(252);
        lemma_small_mod(first_power.as_nat(), group_order());
        vstd::arithmetic::mul::lemma_mul_basics(first_power.as_nat() as int);
    }
    while i < coeffs.len()
        invariant
            first_power.wf(),
            base.wf(),
            i <= coeffs@.len(),
            coeffs@.len() == old(coeffs)@.len(),
            power.wf(),
            power.as_nat() == (first_power.as_nat() * pow_nat(
                base.as_nat(),
                i as nat,
            )) % group_order(),
            forall|j: int| i <= j < coeffs@.len() ==> coeffs@[j] == old(coeffs)@[j],
            coeffs_wf(coeffs@),
            forall|j: int|
                0 <= j < i ==> (#[trigger] coeffs@[j]).as_nat() == (old(
                    coeffs,
                )@[j].as_nat() * first_power.as_nat() * pow_nat(
                    base.as_nat(),
                    j as nat,
                )) % group_order(),
        decreases coeffs@.len() - i,
    {
        let c = coeffs[i];
        let scaled = c.mul_mod(&power);
        coeffs.set(i, scaled);
        let next_power = power.mul_mod(base);
        proof {
            let gi: int = group_order() as int;
            let cv: nat = c.as_nat();
            let f: nat = first_power.as_nat();
            let b: nat = base.as_nat();
            let pw: nat = pow_nat(b, i as nat);
            lemma_mul_mod_noop_right(cv as int, (f * pw) as int, gi);
            assert(cv * (f * pw) == cv * f * pw) by {
                lemma_mul_is_associative(cv as int, f as int, pw as int);
            }
            lemma_mul_mod_noop_left((f * pw) as int, b as int, gi);
            assert(f * pw * b == f * (pw * b)) by {
                lemma_mul_is_associative(f as int, pw as int, b as int);
            }
            assert(pow_nat(b, (i + 1) as nat) == pw * b);
        }
        power = next_power;
        i = i + 1;
    }
}

/// Elementwise `a[i] += b[i] * scalar`, mod `L`: batching one polynomial
/// into another under a challenge scalar.
pub fn mul_add_poly(a: &mut Vec<FieldElem>, b: &Vec<FieldElem>, scalar: &FieldElem)
    requires
        coeffs_wf(old(a)@),
        coeffs_wf(b@),
        scalar.wf(),
        old(a)@.len() == b@.len(),
    ensures
        final(a)@.len() == old(a)@.len(),
        coeffs_wf(final(a)@),
        forall|i: int|
            0 <= i < old(a)@.len() ==> (#[trigger] final(a)@[i]).as_nat() == (old(
                a,
            )@[i].as_nat() + b@[i].as_nat() * scalar.as_nat()) % group_order(),
{
    let mut i: usize = 0;
    proof {
        lemma_group_order_bounds();
        vstd::arithmetic::power2::lemma_pow2_pos(252);
    }
    while i < a.len()
        invariant
            coeffs_wf(b@),
            scalar.wf(),
            i <= a@.len(),
            a@.len() == old(a)@.len(),
            a@.len() == b@.len(),
            forall|j: int| i <= j < a@.len() ==> a@[j] == old(a)@[j],
            coeffs_wf(a@),
            forall|j: int|
                0 <= j < i ==> (#[trigger] a@[j]).as_nat() == (old(a)@[j].as_nat()
                    + b@[j].as_nat() * scalar.as_nat()) % group_order(),
        decreases a@.len() - i,
    {
        let cur = a[i];
        let term = b[i].mul_mod(scalar);
        let updated = cur.add_mod(&term);
        a.set(i, updated);
        proof {
            let gi: int = group_order() as int;
            lemma_small_mod(cur.as_nat(), group_order());
            lemma_add_mod_noop(
                cur.as_nat() as int,
                (b@[i as int].as_nat() * scalar.as_nat()) as int,
                gi,
            );
        }
        i = i + 1;
    }
}

/// Elementwise `p[i] *= scalar`, mod `L`.
pub fn mul_poly_by_scalar(poly: &mut Vec<FieldElem>, scalar: &FieldElem)
    requires
        coeffs_wf(old(poly)@),
        scalar.wf(),
    ensures
        final(poly)@.len() == old(poly)@.len(),
        coeffs_wf(final(poly)@),
        forall|i: int|
            0 <= i < old(poly)@.len() ==> (#[trigger] final(poly)@[i]).as_nat() == (old(
                poly,
            )@[i].as_nat() * scalar.as_nat()) % group_order(),
{
    let mut i: usize = 0;
    proof {
        lemma_group_order_bounds();
        vstd::arithmetic::power2::lemma_pow2_pos(252);
    }
    while i < poly.len()
        invariant
            scalar.wf(),
            i <= poly@.len(),
            poly@.len() == old(poly)@.len(),
            forall|j: int| i <= j < poly@.len() ==> poly@[j] == old(poly)@[j],
            coeffs_wf(poly@),
            forall|j: int|
                0 <= j < i ==> (#[trigger] poly@[j]).as_nat() == (old(
                    poly,
                )@[j].as_nat() * scalar.as_nat()) % group_order(),
        decreases poly@.len() - i,
    {
        let cur = poly[i];
        let updated = cur.mul_mod(scalar);
        poly.set(i, updated);
        i = i + 1;
    }
}

/// A double-ended chain of two element lists, consumed from either end;
/// the model of chaining two coefficient streams.
#[derive(Clone, Debug)]
pub struct Chain<A> {
    pub first: Vec<A>,
    pub second: Vec<A>,
    pub taken_front: usize,
    pub taken_back: usize,
}

impl<A> View for Chain<A> {
    type V = Seq<A>;

    open spec fn view(&self) -> Seq<A> {
        (self.first@ + self.second@).subrange(
            self.taken_front as int,
            self.first@.len() + self.second@.len() - self.taken_back,
        )
    }
}

/// Chaining as an extension method on element lists: the elements of
/// `self` walked before those of `other`, from either end.
pub trait ChainExt<A: Copy>: Sized {
    /// The elements this value contributes.
    spec fn elems(&self) -> Seq<A>;

    /// Chain this list's elements before `other`'s.
    fn chain_ext(self, other: Vec<A>) -> (r: Chain<A>)
        requires
            self.elems().len() + other@.len() <= usize::MAX,
        ensures
            r.wf(),
            r@ =~= self.elems() + other@,
    ;
}

impl<A: Copy> ChainExt<A> for Vec<A> {
    open spec fn elems(&self) -> Seq<A> {
        self@
    }

    fn chain_ext(self, other: Vec<A>) -> (r: Chain<A>) {
        Chain { first: self, second: other, taken_front: 0, taken_back: 0 }
    }
}

impl<A: Copy> Chain<A> {
    /// Both ends stay within the combined length.
    pub open spec fn wf(&self) -> bool {
        &&& self.taken_front + self.taken_back <= self.first@.len() + self.second@.len()
        &&& self.first@.len() + self.second@.len() <= usize::MAX
    }

    /// Remaining elements.
    pub fn len(&self) -> (r: usize)
        requires
            self.wf(),
        ensures
            r == self@.len(),
    {
        self.first.len() + self.second.len() - self.taken_front - self.taken_back
    }

    /// The next element from the front, if any is left.
    pub fn next(&mut self) -> (r: Option<A>)
        requires
            old(self).wf(),
        ensures
            final(self).wf(),
            old(self)@.len() == 0 ==> r is None && final(self)@ =~= old(self)@,
            old(self)@.len() > 0 ==> r == Some(old(self)@[0]) && final(self)@ =~= old(
                self,
            )@.subrange(1, old(self)@.len() as int),
    {
        let total = self.first.len() + self.second.len();
        if self.taken_front + self.taken_back >= total {
            return None;
        }
        let el: A = if self.taken_front < self.first.len() {
            self.first[self.taken_front]
        } else {
            self.second[self.taken_front - self.first.len()]
        };
        self.taken_front = self.taken_front + 1;
        Some(el)
    }

    /// The next element from the back, if any is left.
    pub fn next_back(&mut self) -> (r: Option<A>)
        requires
            old(self).wf(),
        ensures
            final(self).wf(),
            old(self)@.len() == 0 ==> r is None && final(self)@ =~= old(self)@,
            old(self)@.len() > 0 ==> r == Some(old(self)@.last()) && final(self)@ =~= old(
                self,
            )@.drop_last(),
    {
        let total = self.first.len() + self.second.len();
        if self.taken_front + self.taken_back >= total {
            return None;
        }
        let pos = total - self.taken_back - 1;
        let el: A = if pos < self.first.len() {
            self.first[pos]
        } else {
            self.second[pos - self.first.len()]
        };
        self.taken_back = self.taken_back + 1;
        Some(el)
    }
}

} // verus!
