//! The prime generator and factorization.

use classic_crypto::prime_gen::PrimeGen;

#[test]
fn factor_test() {
    let mut prime_gen = PrimeGen::default();

    assert_eq!(prime_gen.factor(1234), vec![2, 617]);
    assert_eq!(prime_gen.factor(100), vec![2, 2, 5, 5]);
    assert_eq!(prime_gen.factor(1), vec![1]);
    assert_eq!(prime_gen.factor(0), vec![0]);
}

#[test]
fn prime_gen_test() {
    let mut prime_gen = PrimeGen::default();

    assert_eq!(prime_gen.next_prime(), 2);
    assert_eq!(prime_gen.next_prime(), 3);
    assert_eq!(prime_gen.next_prime(), 5);
    assert_eq!(prime_gen.next_prime(), 7);
    assert_eq!(prime_gen.next_prime(), 11);
    assert_eq!(prime_gen.next_prime(), 13);
    assert_eq!(prime_gen.next_prime(), 17);
    assert_eq!(prime_gen.next_prime(), 19);
    assert_eq!(prime_gen.next_prime(), 23);
    assert_eq!(prime_gen.next_prime(), 29);
}

#[test]
fn factor_keeps_position() {
    let mut prime_gen = PrimeGen::default();
    assert_eq!(prime_gen.next_prime(), 2);
    assert_eq!(prime_gen.next_prime(), 3);
    let _ = prime_gen.factor(84);
    assert_eq!(prime_gen.next_prime(), 5);
}

#[test]
fn reset_restarts() {
    let mut prime_gen = PrimeGen::default();
    assert_eq!(prime_gen.next_prime(), 2);
    prime_gen.reset();
    assert_eq!(prime_gen.next_prime(), 2);
}
