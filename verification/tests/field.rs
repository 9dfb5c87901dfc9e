use stack_vm::field::Felt;
use stack_vm::field::P;
use stack_vm::utils::felt;

#[test]
fn modulus_is_two_to_the_31_minus_one() {
    assert_eq!(P, (1u32 << 31) - 1);
}

#[test]
fn felt_reduces_out_of_range_values() {
    assert_eq!(felt(0).value(), 0);
    assert_eq!(felt(P - 1).value(), P - 1);
    assert_eq!(felt(P).value(), 0);
    assert_eq!(felt(P + 5).value(), 5);
    assert_eq!(felt(u32::MAX).value(), 1);
    assert_eq!(felt(P), felt(0));
}

#[test]
fn new_is_felt() {
    assert_eq!(Felt::new(12345), felt(12345));
    assert_eq!(Felt::new(u32::MAX - 3).value(), (u32::MAX - 3) % P);
}

#[test]
fn zero_is_the_additive_identity() {
    assert_eq!(Felt::zero().value(), 0);
    assert!(Felt::zero().is_zero());
    assert!(felt(P).is_zero());
    assert!(!felt(1).is_zero());
    assert_eq!(felt(77).add(Felt::zero()), felt(77));
}

#[test]
fn add_wraps_around_the_modulus() {
    assert_eq!(felt(3).add(felt(7)).value(), 10);
    assert_eq!(felt(P - 1).add(felt(1)).value(), 0);
    assert_eq!(felt(P - 1).add(felt(P - 1)).value(), P - 2);
    assert_eq!(felt(5).add(felt(0)).value(), 5);
}

#[test]
fn sub_wraps_around_the_modulus() {
    assert_eq!(felt(10).sub(felt(7)).value(), 3);
    assert_eq!(felt(0).sub(felt(1)).value(), P - 1);
    assert_eq!(felt(3).sub(felt(7)).value(), P - 4);
    assert_eq!(felt(9).sub(felt(9)).value(), 0);
    assert_eq!(felt(9).sub(felt(0)).value(), 9);
}

#[test]
fn mul_reduces_the_product() {
    assert_eq!(felt(10).mul(felt(2)).value(), 20);
    assert_eq!(felt(P - 1).mul(felt(P - 1)).value(), 1);
    assert_eq!(felt(1 << 16).mul(felt(1 << 16)).value(), 2);
    assert_eq!(felt(123456789).mul(felt(987654321)).value(), 2137109934);
    assert_eq!(felt(5).mul(felt(1)).value(), 5);
    assert_eq!(felt(5).mul(felt(0)).value(), 0);
}

#[test]
fn div_is_the_inverse_of_mul() {
    assert_eq!(felt(20).div(felt(4)).value(), 5);
    assert_eq!(felt(1).div(felt(2)).value(), 1 << 30);
    assert_eq!(felt(7).div(felt(1)).value(), 7);
    assert_eq!(felt(0).div(felt(9)).value(), 0);
    for (a, b) in [(1u32, 3u32), (5, 7), (P - 1, P - 2), (123456789, 987654321)] {
        let q = felt(a).div(felt(b));
        assert_eq!(q.mul(felt(b)), felt(a));
    }
}

#[test]
fn every_sampled_element_has_an_inverse() {
    let one = felt(1);
    for b in [1u32, 2, 3, 65535, 65536, 46341, P - 1, 1 << 30] {
        let inv = one.div(felt(b));
        assert_eq!(inv.mul(felt(b)), one);
    }
}
