use halo2_gpu_prover::field::{borrow_columns, repeat, PrimeField};
use halo2_gpu_prover::fp::Fp;

const MODULUS: [u64; 4] = [0x992d30ed00000001, 0x224698fc094cf91b, 0, 0x4000000000000000];

fn f(n: u64) -> Fp {
    Fp::from_raw([n, 0, 0, 0])
}

#[test]
fn sums_wrap_around_the_modulus() {
    assert_eq!(f(2).add(f(3)).to_limbs(), [5, 0, 0, 0]);
    let minus_one = f(1).neg();
    assert_eq!(minus_one.add(f(2)).to_limbs(), [1, 0, 0, 0]);
    assert_eq!(minus_one.add(f(1)).to_limbs(), [0, 0, 0, 0]);
}

#[test]
fn negation_reaches_the_largest_residue() {
    let mut largest = MODULUS;
    largest[0] -= 1;
    assert_eq!(f(1).neg().to_limbs(), largest);
    assert_eq!(f(0).neg().to_limbs(), [0, 0, 0, 0]);
}

#[test]
fn products_are_reduced() {
    assert_eq!(f(6).mul(f(7)).to_limbs(), [42, 0, 0, 0]);
    let minus_one = f(1).neg();
    assert_eq!(minus_one.mul(minus_one).to_limbs(), [1, 0, 0, 0]);
}

#[test]
fn powers_of_small_and_large_exponents() {
    assert_eq!(f(3).pow(5).to_limbs(), [243, 0, 0, 0]);
    assert_eq!(f(3).pow(0).to_limbs(), [1, 0, 0, 0]);
    assert_eq!(f(5).pow(1 << 32).to_limbs(), Fp::delta().to_limbs());
}

#[test]
fn delta_is_the_coset_generator() {
    assert_eq!(
        Fp::delta().to_limbs(),
        [0x6a6ccd20dd7b9ba2, 0xf5e4f3f13eee5636, 0xbd455b7112a5049d, 0x0a757d0f0006ab6c]
    );
}

#[test]
fn equality_is_that_of_residues() {
    assert!(Fp::from_raw(MODULUS).equals(f(0)));
    assert!(f(4).equals(f(2).add(f(2))));
    assert!(!f(4).equals(f(5)));
}

#[test]
fn words_are_those_of_the_montgomery_form() {
    assert_eq!(
        f(1).words(),
        (0x34786d38fffffffd, 0x992c350be41914ad, 0xffffffffffffffff, 0x3fffffffffffffff)
    );
    assert_eq!(f(0).words(), (0, 0, 0, 0));
    assert_ne!(f(2).words(), f(3).words());
}

#[test]
fn batch_inversion_keeps_zeros() {
    let mut values = vec![f(2), f(0), f(3)];
    Fp::batch_invert(&mut values);
    assert_eq!(values.len(), 3);
    assert_eq!(values[0].mul(f(2)).to_limbs(), [1, 0, 0, 0]);
    assert_eq!(values[1].to_limbs(), [0, 0, 0, 0]);
    assert_eq!(values[2].mul(f(3)).to_limbs(), [1, 0, 0, 0]);
}

#[test]
fn zero_and_one() {
    assert_eq!(Fp::zero().to_limbs(), [0, 0, 0, 0]);
    assert_eq!(Fp::one().to_limbs(), [1, 0, 0, 0]);
}

#[test]
fn repeated_and_borrowed_columns() {
    let column = repeat(f(9), 3);
    assert_eq!(column.len(), 3);
    assert!(column.iter().all(|x| x.equals(f(9))));
    assert_eq!(repeat(f(9), 0).len(), 0);
    let columns = vec![column, vec![f(1)]];
    let borrowed = borrow_columns(&columns);
    assert_eq!(borrowed.len(), 2);
    assert_eq!(borrowed[0].len(), 3);
    assert!(borrowed[1][0].equals(f(1)));
}
