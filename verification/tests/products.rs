use halo2_gpu_prover::circuit::{Any, Column, ConstraintSystem, ProvingKey};
use halo2_gpu_prover::field::PrimeField;
use halo2_gpu_prover::fp::Fp;
use halo2_gpu_prover::grand_product::accumulate;
use halo2_gpu_prover::permutation::permutation_products;
use halo2_gpu_prover::products::circuit_permutation_products;

fn f(n: u64) -> Fp {
    Fp::from_raw([n, 0, 0, 0])
}

fn column(values: &[u64]) -> Vec<Fp> {
    values.iter().map(|v| f(*v)).collect()
}

/// A generator of the domain of four rows.
fn omega() -> Fp {
    Fp::from_raw([0xe047f48898cdb6db, 0xff98203a45f8ebf0, 0x31744fb72326829d, 0x36bdcc7b0f28b5df])
}

/// Two columns in which the cells (0, 0) and (0, 2) are tied, and (0, 1) and (1, 0).
fn tied_images() -> Vec<Vec<Fp>> {
    let label = |c: u64, r: u64| Fp::delta().pow(c).mul(omega().pow(r));
    let mut images: Vec<Vec<Fp>> =
        (0..2).map(|c| (0..4).map(|r| label(c, r)).collect()).collect();
    images[0][0] = label(0, 2);
    images[0][2] = label(0, 0);
    images[0][1] = label(1, 0);
    images[1][0] = label(0, 1);
    images
}

fn limbs(column: &[Fp]) -> Vec<[u64; 4]> {
    column.iter().map(|x| x.to_limbs()).collect()
}

#[test]
fn products_run_up_to_a_row() {
    let mut ratios = column(&[2, 3, 5, 7]);
    let end = accumulate(&mut ratios, f(10), 2);
    assert_eq!(limbs(&ratios), limbs(&column(&[10, 20, 60, 0])));
    assert_eq!(end.to_limbs(), [60, 0, 0, 0]);
}

#[test]
fn permutation_products_chunk_by_chunk() {
    let cells = vec![column(&[4, 6, 4, 0]), column(&[6, 8, 9, 0])];
    let images = tied_images();
    let z = permutation_products(
        f(7),
        f(11),
        omega(),
        4,
        &cells.iter().map(|c| &c[..]).collect(),
        &images.iter().map(|c| &c[..]).collect(),
        1,
        3,
    );
    assert_eq!(z.len(), 2);
    let handed_over =
        [0xbe76955316560052, 0xea3316bf891bf1a6, 0xe90a37e51e675403, 0x2645973e32f46eea];
    assert_eq!(
        limbs(&z[0]),
        vec![
            [1, 0, 0, 0],
            [0xe64b4c3b40000003, 0x891a63f02533e46, 0, 0x1000000000000000],
            [0x26025140fd6c80e0, 0x90a29914ab1962e1, 0xdc19b6139c270a, 0x93f5feb0c203106],
            handed_over,
        ]
    );
    assert_eq!(limbs(&z[1]), vec![handed_over, [1, 0, 0, 0], [1, 0, 0, 0], [1, 0, 0, 0]]);
}

#[test]
fn a_chunk_of_both_columns_closes_too() {
    let cells = vec![column(&[4, 6, 4, 0]), column(&[6, 8, 9, 0])];
    let images = tied_images();
    let z = permutation_products(
        f(7),
        f(11),
        omega(),
        4,
        &cells.iter().map(|c| &c[..]).collect(),
        &images.iter().map(|c| &c[..]).collect(),
        2,
        3,
    );
    assert_eq!(z.len(), 1);
    assert_eq!(z[0][3].to_limbs(), [1, 0, 0, 0]);
}

#[test]
fn a_broken_tie_leaves_the_product_open() {
    let cells = vec![column(&[4, 6, 5, 0]), column(&[6, 8, 9, 0])];
    let images = tied_images();
    let z = permutation_products(
        f(7),
        f(11),
        omega(),
        4,
        &cells.iter().map(|c| &c[..]).collect(),
        &images.iter().map(|c| &c[..]).collect(),
        2,
        3,
    );
    assert_ne!(z[0][3].to_limbs(), [1, 0, 0, 0]);
}

#[test]
fn no_columns_have_no_products() {
    let z = permutation_products::<Fp>(f(7), f(11), omega(), 4, &vec![], &vec![], 2, 3);
    assert!(z.is_empty());
}

#[test]
fn the_columns_of_a_circuit_are_found_by_kind() {
    let pk = ProvingKey {
        k: 2,
        cs: ConstraintSystem {
            num_advice_columns: 1,
            num_instance_columns: 1,
            lookups: vec![],
            instance_queries: vec![],
            advice_queries: vec![],
            fixed_queries: vec![],
            permutation_columns: vec![
                Column { index: 0, column_type: Any::Instance },
                Column { index: 0, column_type: Any::Advice },
            ],
            degree: 3,
            blinding_factors: 0,
        },
        omega: omega(),
        omega_inv: omega().pow(3),
        fixed_values: vec![],
        fixed_polys: vec![],
        permutations: tied_images(),
        permutation_polys: vec![],
    };
    assert!(pk.is_valid());
    let z = circuit_permutation_products(
        &pk,
        f(7),
        f(11),
        &vec![column(&[6, 8, 9, 0])],
        &vec![column(&[4, 6, 4, 0])],
    );
    assert_eq!(z.len(), 2);
    assert_eq!(
        z[0][3].to_limbs(),
        [0xbe76955316560052, 0xea3316bf891bf1a6, 0xe90a37e51e675403, 0x2645973e32f46eea]
    );
    assert_eq!(z[1][3].to_limbs(), [1, 0, 0, 0]);
}
