use halo2_gpu_prover::circuit::{ConstraintSystem, Lookup, ProvingKey};
use halo2_gpu_prover::expression::{Expression, Rotation};
use halo2_gpu_prover::field::PrimeField;
use halo2_gpu_prover::fp::Fp;
use halo2_gpu_prover::opening::{
    evaluation_inputs, fit_evaluations, group_by_poly, prover_queries, scatter_evaluations,
    squarings, PolyId, ProverQuery,
};

fn f(n: u64) -> Fp {
    Fp::from_raw([n, 0, 0, 0])
}

fn omega() -> Fp {
    Fp::from_raw([0xe047f48898cdb6db, 0xff98203a45f8ebf0, 0x31744fb72326829d, 0x36bdcc7b0f28b5df])
}

fn key() -> ProvingKey<Fp> {
    ProvingKey {
        k: 2,
        cs: ConstraintSystem {
            num_advice_columns: 1,
            num_instance_columns: 1,
            lookups: vec![Lookup {
                input_expressions: vec![Expression::Constant(f(1))],
                table_expressions: vec![Expression::Constant(f(1))],
            }],
            instance_queries: vec![(0, Rotation(0))],
            advice_queries: vec![(0, Rotation(0)), (0, Rotation(1))],
            fixed_queries: vec![(0, Rotation(-1))],
            permutation_columns: vec![],
            degree: 3,
            blinding_factors: 1,
        },
        omega: omega(),
        omega_inv: omega().pow(3),
        fixed_values: vec![],
        fixed_polys: vec![vec![]],
        permutations: vec![],
        permutation_polys: vec![vec![], vec![]],
    }
}

#[test]
fn rotating_back_undoes_rotating_forth() {
    let pk = key();
    let x = f(12345);
    for r in [1, 2, 3, 7] {
        let forth = pk.rotate_omega(x, Rotation(r));
        assert!(pk.rotate_omega(forth, Rotation(-r)).equals(x));
    }
    assert!(pk.rotate_omega(x, Rotation(0)).equals(x));
    assert_eq!(
        pk.rotate_omega(f(1), Rotation(1)).to_limbs(),
        [0xe047f48898cdb6db, 0xff98203a45f8ebf0, 0x31744fb72326829d, 0x36bdcc7b0f28b5df]
    );
}

#[test]
fn evaluations_in_the_order_of_the_transcript() {
    let pk = key();
    let x = f(5);
    let at = |r: i32| pk.rotate_omega(x, Rotation(r)).to_limbs();
    let inputs: Vec<(PolyId, [u64; 4])> =
        evaluation_inputs(&pk, x, 2).iter().map(|(p, x)| (*p, x.to_limbs())).collect();
    assert_eq!(
        inputs,
        vec![
            (PolyId::Quotient, at(0)),
            (PolyId::Instance(0), at(0)),
            (PolyId::Advice(0), at(0)),
            (PolyId::Advice(0), at(1)),
            (PolyId::Fixed(0), at(-1)),
            (PolyId::Random, at(0)),
            (PolyId::Permutation(0), at(0)),
            (PolyId::Permutation(1), at(0)),
            (PolyId::PermutationProduct(0), at(0)),
            (PolyId::PermutationProduct(0), at(1)),
            (PolyId::PermutationProduct(0), at(-2)),
            (PolyId::PermutationProduct(1), at(0)),
            (PolyId::PermutationProduct(1), at(1)),
            (PolyId::LookupProduct(0), at(0)),
            (PolyId::LookupProduct(0), at(1)),
            (PolyId::PermutedInput(0), at(0)),
            (PolyId::PermutedInput(0), at(-1)),
            (PolyId::PermutedTable(0), at(0)),
        ]
    );
}

#[test]
fn inputs_are_gathered_and_put_back() {
    let inputs = vec![
        (PolyId::Quotient, f(1)),
        (PolyId::Advice(0), f(2)),
        (PolyId::Advice(1), f(3)),
        (PolyId::Advice(0), f(4)),
    ];
    let groups = group_by_poly(&inputs);
    assert_eq!(groups.len(), 3);
    assert_eq!(groups[1].poly, PolyId::Advice(0));
    let places: Vec<usize> = groups[1].points.iter().map(|p| p.0).collect();
    assert_eq!(places, vec![1, 3]);
    assert!(groups[1].points[1].1.equals(f(4)));
    let evals = vec![vec![f(10)], vec![f(20), f(40)], vec![f(30)]];
    assert!(fit_evaluations(&groups, &evals));
    let all = scatter_evaluations(&inputs, &groups, &evals);
    let all: Vec<[u64; 4]> = all.iter().map(|x| x.to_limbs()).collect();
    assert_eq!(all, vec![[10, 0, 0, 0], [20, 0, 0, 0], [30, 0, 0, 0], [40, 0, 0, 0]]);
    assert!(!fit_evaluations(&groups, &vec![vec![f(10)], vec![f(20)], vec![f(30)]]));
    assert!(!fit_evaluations(&groups, &vec![vec![f(10)]]));
}

#[test]
fn powers_for_evaluation_by_halving() {
    let powers: Vec<[u64; 4]> = squarings(f(3), 4).iter().map(|x| x.to_limbs()).collect();
    assert_eq!(powers, vec![[3, 0, 0, 0], [9, 0, 0, 0], [81, 0, 0, 0], [6561, 0, 0, 0]]);
    assert_eq!(squarings(f(3), 0).len(), 1);
}

#[test]
fn all_queries_of_the_opening() {
    let pk = key();
    let x = f(5);
    let at = |r: i32| pk.rotate_omega(x, Rotation(r)).to_limbs();
    let product =
        ProverQuery { point: x, rotation: Rotation(0), poly: PolyId::PermutationProduct(0) };
    let lookup = ProverQuery { point: x, rotation: Rotation(0), poly: PolyId::LookupProduct(0) };
    let queries = prover_queries(&pk, x, &vec![product], &vec![vec![lookup]]);
    let queries: Vec<(PolyId, i32, [u64; 4])> =
        queries.iter().map(|q| (q.poly, q.rotation.0, q.point.to_limbs())).collect();
    assert_eq!(
        queries,
        vec![
            (PolyId::Instance(0), 0, at(0)),
            (PolyId::Advice(0), 0, at(0)),
            (PolyId::Advice(0), 1, at(1)),
            (PolyId::PermutationProduct(0), 0, at(0)),
            (PolyId::LookupProduct(0), 0, at(0)),
            (PolyId::Fixed(0), -1, at(-1)),
            (PolyId::Permutation(0), 0, at(0)),
            (PolyId::Permutation(1), 0, at(0)),
            (PolyId::Quotient, 0, at(0)),
            (PolyId::Random, 0, at(0)),
        ]
    );
}

#[test]
fn whatever_is_opened_has_been_evaluated() {
    let pk = key();
    let x = f(5);
    let evaluated: Vec<(PolyId, [u64; 4])> =
        evaluation_inputs(&pk, x, 1).iter().map(|(p, x)| (*p, x.to_limbs())).collect();
    for q in prover_queries(&pk, x, &vec![], &vec![]) {
        assert!(evaluated.contains(&(q.poly, q.point.to_limbs())));
    }
}
