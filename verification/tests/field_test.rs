use mastic::field::MODULUS;
use mastic::{FieldElm, Group};

fn f(x: u64) -> FieldElm {
    FieldElm::from(x)
}

#[test]
fn the_modulus_is_the_goldilocks_prime() {
    assert_eq!(MODULUS, 18446744069414584321u64);
    assert_eq!(MODULUS as u128, (1u128 << 64) - (1u128 << 32) + 1);
}

#[test]
fn conversion_reduces_modulo_the_modulus() {
    assert_eq!(f(0).value(), 0);
    assert_eq!(f(7).value(), 7);
    assert_eq!(f(MODULUS - 1).value(), MODULUS - 1);
    assert_eq!(f(MODULUS).value(), 0);
    assert_eq!(f(MODULUS + 5).value(), 5);
    assert_eq!(f(u64::MAX).value(), 4294967294);
    assert_eq!(f(MODULUS), f(0));
    assert_eq!(FieldElm::from_u64(MODULUS + 5), f(5));
    assert_eq!(FieldElm::zero(), f(0));
    assert_eq!(FieldElm::one(), f(1));
}

#[test]
fn addition_wraps_at_the_modulus() {
    let mut a = f(MODULUS - 1);
    a.add(&f(1));
    assert_eq!(a, f(0));
    let mut a = f(MODULUS - 1);
    a.add(&f(MODULUS - 1));
    assert_eq!(a.value(), MODULUS - 2);
    let mut a = f(3);
    a.add(&f(4));
    assert_eq!(a.value(), 7);
}

#[test]
fn subtraction_and_negation_wrap_below_zero() {
    let mut a = f(3);
    a.sub(&f(5));
    assert_eq!(a.value(), MODULUS - 2);
    let mut a = f(5);
    a.sub(&f(3));
    assert_eq!(a.value(), 2);
    let mut a = f(0);
    a.negate();
    assert_eq!(a.value(), 0);
    let mut a = f(1);
    a.negate();
    assert_eq!(a.value(), MODULUS - 1);
    let mut b = a;
    b.add(&f(1));
    assert_eq!(b, f(0));
}

#[test]
fn multiplication_reduces_the_product() {
    let mut a = f(1 << 32);
    a.mul(&f(1 << 32));
    assert_eq!(a.value(), 4294967295);
    let mut a = f(MODULUS - 1);
    a.mul(&f(MODULUS - 1));
    assert_eq!(a.value(), 1);
    let mut a = f(6);
    a.mul(&f(7));
    assert_eq!(a.value(), 42);
    let mut a = f(12345);
    a.mul(&f(0));
    assert_eq!(a, f(0));
}

#[test]
fn the_order_of_field_elements_is_that_of_their_residues() {
    assert!(f(5).at_least(&f(5)));
    assert!(f(6).at_least(&f(5)));
    assert!(!f(4).at_least(&f(5)));
    assert!(!f(MODULUS).at_least(&f(1)));
}

#[test]
fn integers_form_the_group_modulo_two_to_the_64() {
    let mut a = u64::MAX;
    Group::add(&mut a, &2);
    assert_eq!(a, 1);
    let mut a = 3u64;
    Group::sub(&mut a, &5);
    assert_eq!(a, u64::MAX - 1);
    let mut a = 1u64 << 63;
    Group::mul(&mut a, &2);
    assert_eq!(a, 0);
    let mut a = 0xffff_ffff_ffff_fff1u64;
    Group::mul(&mut a, &0x10);
    assert_eq!(a, 0xffff_ffff_ffff_ff10);
    let mut a = 1u64;
    a.negate();
    assert_eq!(a, u64::MAX);
    let mut a = 0u64;
    a.negate();
    assert_eq!(a, 0);
    assert_eq!(<u64 as Group>::from_u64(77), 77);
    assert_eq!(<u64 as Group>::zero(), 0);
    assert_eq!(<u64 as Group>::one(), 1);
    assert!(7u64.at_least(&7));
    assert!(!6u64.at_least(&7));
}
