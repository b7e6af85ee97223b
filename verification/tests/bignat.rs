use naive_bayes::bignat::BigNat;
use naive_bayes::bignat::Rel;

const CARRY: u128 = 1u128 << 64;

#[test]
fn comparison_is_exact_across_limb_boundaries() {
    // 3 * 2^64 built two ways must compare equal.
    let a = BigNat::one().mul_wide(CARRY).mul_wide(3);
    let b = BigNat::one().mul_wide(3 * CARRY);
    assert_eq!(a.cmp_with(&b), Rel::Eq);

    let bigger = BigNat::one().mul_wide(3 * CARRY + 1);
    assert_eq!(a.cmp_with(&bigger), Rel::Lt);
    assert_eq!(bigger.cmp_with(&a), Rel::Gt);
}

#[test]
fn addition_carries_between_limbs() {
    // (2^64 - 1) + 1 == 2^64.
    let a = BigNat::one().mul_wide(CARRY - 1);
    let sum = a.plus(&BigNat::one());
    assert_eq!(sum.cmp_with(&BigNat::one().mul_wide(CARRY)), Rel::Eq);
}

#[test]
fn products_grow_beyond_two_limbs() {
    // (2^127)^2 spreads over four limbs; squaring both orders agrees.
    let big = u128::MAX;
    let p1 = BigNat::one().mul_wide(big).mul_wide(big - 1);
    let p2 = BigNat::one().mul_wide(big - 1).mul_wide(big);
    assert_eq!(p1.cmp_with(&p2), Rel::Eq);
    assert_eq!(p1.cmp_with(&BigNat::one().mul_wide(big)), Rel::Gt);
    assert_eq!(BigNat::one().cmp_with(&p1), Rel::Lt);
}

#[test]
fn zero_times_anything_is_zero() {
    let z = BigNat::one().mul_wide(0);
    let z2 = BigNat::one().mul_wide(u128::MAX).mul_wide(0);
    assert_eq!(z.cmp_with(&z2), Rel::Eq);
    assert_eq!(z.cmp_with(&BigNat::one()), Rel::Lt);
}
