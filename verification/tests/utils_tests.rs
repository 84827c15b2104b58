//! Polynomial helpers and the double-ended chain.

use r1cs_gadgets::count_bits;
use r1cs_gadgets::field::FieldElem;
use r1cs_gadgets::utils::eval_bivar_poly;
use r1cs_gadgets::utils::eval_univar_poly;
use r1cs_gadgets::utils::mul_add_poly;
use r1cs_gadgets::utils::mul_poly_by_scalar;
use r1cs_gadgets::utils::ChainExt;

fn fe(x: u64) -> FieldElem {
    FieldElem::from_u64(x)
}

#[test]
fn count_bits_values() {
    assert_eq!(count_bits(0), 0);
    assert_eq!(count_bits(1), 1);
    assert_eq!(count_bits(2), 2);
    assert_eq!(count_bits(255), 8);
    assert_eq!(count_bits(256), 9);
    assert_eq!(count_bits(u64::MAX), 64);
    assert_eq!(count_bits(1u64 << 63), 64);
}

#[test]
fn univar_poly_evaluation() {
    // 3 + 4x + 5x^2 at x = 2, scaled by first power 1: 3 + 8 + 20 = 31.
    let coeffs = vec![fe(3), fe(4), fe(5)];
    let r = eval_univar_poly(&coeffs, &fe(1), &fe(2));
    assert_eq!(r, fe(31));
    // The same with first power 7 scales every term: 7 * 31 = 217.
    let r = eval_univar_poly(&coeffs, &fe(7), &fe(2));
    assert_eq!(r, fe(217));
    // The empty polynomial evaluates to zero.
    let r = eval_univar_poly(&Vec::new(), &fe(7), &fe(2));
    assert_eq!(r, FieldElem::zero());
}

#[test]
fn bivar_poly_scaling() {
    // Coefficients [1, 1, 1] scaled by first power 5 and base 3 become
    // [5, 15, 45].
    let mut coeffs = vec![fe(1), fe(1), fe(1)];
    eval_bivar_poly(&mut coeffs, &fe(5), &fe(3));
    assert_eq!(coeffs, vec![fe(5), fe(15), fe(45)]);
}

#[test]
fn mul_add_poly_batches() {
    // a += b * 10: [1,2] + [3,4]*10 == [31, 42].
    let mut a = vec![fe(1), fe(2)];
    let b = vec![fe(3), fe(4)];
    mul_add_poly(&mut a, &b, &fe(10));
    assert_eq!(a, vec![fe(31), fe(42)]);
}

#[test]
fn mul_poly_by_scalar_scales() {
    let mut p = vec![fe(2), fe(0), fe(9)];
    mul_poly_by_scalar(&mut p, &fe(6));
    assert_eq!(p, vec![fe(12), fe(0), fe(54)]);
}

#[test]
fn chain_walks_both_ends() {
    let mut c = vec![1u64, 2, 3].chain_ext(vec![4u64, 5]);
    assert_eq!(c.len(), 5);
    assert_eq!(c.next(), Some(1));
    assert_eq!(c.next_back(), Some(5));
    assert_eq!(c.next(), Some(2));
    assert_eq!(c.next(), Some(3));
    assert_eq!(c.len(), 1);
    assert_eq!(c.next_back(), Some(4));
    assert_eq!(c.next(), None);
    assert_eq!(c.next_back(), None);
    assert_eq!(c.len(), 0);
}

#[test]
fn chain_crosses_the_seam_forward() {
    let mut c = vec![10u64].chain_ext(vec![20u64, 30]);
    assert_eq!(c.next(), Some(10));
    assert_eq!(c.next(), Some(20));
    assert_eq!(c.next(), Some(30));
    assert_eq!(c.next(), None);
}
