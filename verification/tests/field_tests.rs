//! Arithmetic of the scalar field type.

use r1cs_gadgets::field::FieldElem;

// L - 1, as limbs: L = 2^252 + 27742317777372353535851937790883648493.
fn l_minus_one() -> FieldElem {
    FieldElem::from_u64(1).neg_mod()
}

#[test]
fn add_small_values() {
    let a = FieldElem::from_u64(3);
    let b = FieldElem::from_u64(39);
    let c = a.add_mod(&b);
    assert_eq!(c, FieldElem::from_u64(42));
}

#[test]
fn add_wraps_at_group_order() {
    let one = FieldElem::from_u64(1);
    let lm1 = l_minus_one();
    let sum = lm1.add_mod(&one);
    assert_eq!(sum, FieldElem::zero());
}

#[test]
fn neg_of_zero_is_zero() {
    assert_eq!(FieldElem::zero().neg_mod(), FieldElem::zero());
}

#[test]
fn neg_cancels() {
    let x = FieldElem::from_u128(0x1234_5678_9abc_def0_1111_2222_3333_4444);
    let nx = x.neg_mod();
    assert_eq!(x.add_mod(&nx), FieldElem::zero());
}

#[test]
fn mul_small_values() {
    let a = FieldElem::from_u64(6);
    let b = FieldElem::from_u64(7);
    assert_eq!(a.mul_mod(&b), FieldElem::from_u64(42));
}

#[test]
fn mul_by_zero_and_one() {
    let x = FieldElem::from_u128(0xdead_beef_dead_beef_dead_beef);
    assert_eq!(x.mul_mod(&FieldElem::zero()), FieldElem::zero());
    assert_eq!(x.mul_mod(&FieldElem::one()), x);
}

#[test]
fn mul_wide_values() {
    // (2^64) * (2^64) == 2^128, still below L.
    let x = FieldElem::from_u128(1u128 << 64);
    let sq = x.mul_mod(&x);
    let mut expect = FieldElem::from_u64(1);
    for _ in 0..128 {
        expect = expect.add_mod(&expect);
    }
    assert_eq!(sq, expect);
}

#[test]
fn minus_one_squares_to_one() {
    // (L-1)^2 == 1 mod L.
    let lm1 = l_minus_one();
    assert_eq!(lm1.mul_mod(&lm1), FieldElem::one());
}

#[test]
fn bit_extraction() {
    let x = FieldElem::from_u64(0b1011);
    assert_eq!(x.bit(0), 1);
    assert_eq!(x.bit(1), 1);
    assert_eq!(x.bit(2), 0);
    assert_eq!(x.bit(3), 1);
    assert_eq!(x.bit(200), 0);
}
