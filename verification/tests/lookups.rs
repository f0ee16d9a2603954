use halo2_gpu_prover::circuit::{Any, Column, ConstraintSystem, Lookup, ProvingKey};
use halo2_gpu_prover::commitments::{commitment_order, place_commitments};
use halo2_gpu_prover::expression::{Expression, Rotation};
use halo2_gpu_prover::field::PrimeField;
use halo2_gpu_prover::fp::Fp;
use halo2_gpu_prover::lookup::{handle_lookup_pair, sort_column};
use halo2_gpu_prover::lookup_columns::{
    build_lookups, classify, fill_unit, is_expression_pure_unit, lookup_classify, LookupClass,
};
use halo2_gpu_prover::lookup_product::lookup_product;
use halo2_gpu_prover::opening::PolyId;
use halo2_gpu_prover::prepare_advice_buffer;
use halo2_gpu_prover::products::fill_lookup_products;

fn f(n: u64) -> Fp {
    Fp::from_raw([n, 0, 0, 0])
}

fn column(values: &[u64]) -> Vec<Fp> {
    values.iter().map(|v| f(*v)).collect()
}

fn small(values: &[Fp]) -> Vec<u64> {
    values
        .iter()
        .map(|v| {
            let limbs = v.to_limbs();
            assert_eq!(limbs[1..], [0, 0, 0]);
            limbs[0]
        })
        .collect()
}

fn fixed(column_index: usize) -> Expression<Fp> {
    Expression::Fixed { query_index: 0, column_index, rotation: Rotation(0) }
}

fn advice(column_index: usize, rotation: i32) -> Expression<Fp> {
    Expression::Advice { query_index: 0, column_index, rotation: Rotation(rotation) }
}

fn lookup(inputs: Vec<Expression<Fp>>, tables: Vec<Expression<Fp>>) -> Lookup<Fp> {
    Lookup { input_expressions: inputs, table_expressions: tables }
}

/// Four rows, the last of which is left to blinding.
fn key(lookups: Vec<Lookup<Fp>>) -> ProvingKey<Fp> {
    ProvingKey {
        k: 2,
        cs: ConstraintSystem {
            num_advice_columns: 2,
            num_instance_columns: 0,
            lookups,
            instance_queries: vec![],
            advice_queries: vec![],
            fixed_queries: vec![],
            permutation_columns: vec![],
            degree: 3,
            blinding_factors: 0,
        },
        omega: f(1),
        omega_inv: f(1),
        fixed_values: vec![column(&[1, 2, 5, 0])],
        fixed_polys: vec![],
        permutations: vec![],
        permutation_polys: vec![],
    }
}

fn three_kinds() -> ProvingKey<Fp> {
    key(vec![
        lookup(vec![advice(0, 0), advice(1, 0)], vec![fixed(0), fixed(0)]),
        lookup(vec![advice(0, 1)], vec![fixed(0)]),
        lookup(vec![advice(0, 0)], vec![fixed(0)]),
        lookup(vec![advice(1, 0)], vec![Expression::Constant(f(7))]),
    ])
}

#[test]
fn elements_are_sorted_by_their_memory_words() {
    let sorted = sort_column(&column(&[0, 1, 2, 3, 4, 5, 6, 7, 8, 9]), 10);
    assert_eq!(small(&sorted), vec![0, 4, 9, 1, 6, 3, 8, 5, 2, 7]);
    assert_eq!(small(&sort_column(&column(&[2, 1, 3]), 2)), vec![1, 2]);
    assert_eq!(sort_column(&column(&[2, 1, 3]), 0).len(), 0);
}

#[test]
fn a_lookup_pair_is_permuted_and_padded() {
    let input = column(&[3, 1, 3, 2, 3, 1, 9, 9]);
    let table = column(&[1, 2, 3, 4, 5, 6, 9, 9]);
    let (a, b) = handle_lookup_pair(&input, &table, 6);
    assert_eq!(small(&a), vec![1, 1, 3, 3, 3, 2, 0, 0]);
    assert_eq!(small(&b), vec![1, 4, 3, 6, 5, 2, 0, 0]);
}

#[test]
fn each_row_of_a_pair_repeats_or_agrees_with_the_table() {
    let input = column(&[3, 1, 3, 2, 3, 1, 9, 9]);
    let table = column(&[1, 2, 3, 4, 5, 6, 9, 9]);
    let (a, b) = handle_lookup_pair(&input, &table, 6);
    assert!(a[0].equals(b[0]));
    for i in 1..6 {
        assert!(a[i].equals(b[i]) || a[i].equals(a[i - 1]));
    }
}

#[test]
fn permuting_keeps_the_usable_rows() {
    let input = column(&[3, 1, 3, 2, 3, 1, 9, 9]);
    let table = column(&[1, 2, 3, 4, 5, 6, 9, 9]);
    let (a, b) = handle_lookup_pair(&input, &table, 6);
    let mut a = small(&a[..6]);
    let mut b = small(&b[..6]);
    a.sort();
    b.sort();
    assert_eq!(a, vec![1, 1, 2, 3, 3, 3]);
    assert_eq!(b, vec![1, 2, 3, 4, 5, 6]);
}

#[test]
fn an_input_that_the_table_lacks_still_leads_its_run() {
    let (a, b) = handle_lookup_pair(&column(&[8, 8, 0]), &column(&[1, 2, 0]), 2);
    assert_eq!(small(&a), vec![8, 8, 0]);
    assert_eq!(small(&b), vec![8, 1, 0]);
}

#[test]
fn no_usable_rows_give_zeros() {
    let (a, b) = handle_lookup_pair(&column(&[8, 8]), &column(&[1, 2]), 0);
    assert_eq!(small(&a), vec![0, 0]);
    assert_eq!(small(&b), vec![0, 0]);
}

#[test]
fn units_are_constants_and_unrotated_columns() {
    assert!(is_expression_pure_unit(&Expression::Constant(f(1))));
    assert!(is_expression_pure_unit(&fixed(0)));
    assert!(is_expression_pure_unit(&advice(0, 0)));
    assert!(is_expression_pure_unit(&Expression::<Fp>::Instance {
        query_index: 0,
        column_index: 0,
        rotation: Rotation(0)
    }));
    assert!(!is_expression_pure_unit(&advice(0, 1)));
    assert!(!is_expression_pure_unit(&Expression::Negated(Box::new(fixed(0)))));
}

#[test]
fn lookups_are_parted_by_class() {
    let pk = three_kinds();
    let [unit, comp, tuple] = lookup_classify(&pk, vec!['a', 'b', 'c', 'd']);
    assert_eq!(unit, vec![(2, 'c'), (3, 'd')]);
    assert_eq!(comp, vec![(1, 'b')]);
    assert_eq!(tuple, vec![(0, 'a')]);
    assert_eq!(classify(&pk.cs.lookups[0]), LookupClass::Tuple);
}

#[test]
fn missing_buffers_end_the_classes() {
    let [unit, comp, tuple] = lookup_classify(&three_kinds(), vec!['a', 'b']);
    assert!(unit.is_empty());
    assert_eq!(comp, vec![(1, 'b')]);
    assert_eq!(tuple, vec![(0, 'a')]);
}

#[test]
fn unit_expressions_are_copied() {
    let advice_column = column(&[4, 5]);
    let mut target = column(&[0, 0]);
    fill_unit(&advice(0, 0), &[], &[&advice_column], &[], &mut target);
    assert_eq!(small(&target), vec![4, 5]);
    fill_unit(&Expression::Constant(f(3)), &[], &[], &[], &mut target);
    assert_eq!(small(&target), vec![3, 3]);
}

#[test]
fn advice_buffers_are_zero() {
    let buffers = prepare_advice_buffer(&three_kinds());
    assert_eq!(buffers.len(), 2);
    for b in buffers.iter() {
        assert_eq!(small(b), vec![0, 0, 0, 0]);
    }
}

#[test]
fn lookup_columns_are_built_by_class() {
    let pk = three_kinds();
    assert!(pk.is_valid());
    let advices = vec![column(&[2, 1, 2, 0]), column(&[2, 1, 5, 0])];
    let lookups = build_lookups(&pk, f(10), &advices, &vec![]);
    assert_eq!(lookups.len(), 4);
    assert_eq!(small(&lookups[0].input), vec![22, 11, 25, 0]);
    assert_eq!(small(&lookups[0].table), vec![11, 22, 55, 0]);
    assert_eq!(small(&lookups[1].input), vec![1, 2, 0, 2]);
    assert_eq!(small(&lookups[2].input), vec![2, 1, 2, 0]);
    assert_eq!(small(&lookups[2].table), vec![1, 2, 5, 0]);
    assert_eq!(small(&lookups[2].permuted_input), vec![1, 2, 2, 0]);
    assert_eq!(small(&lookups[2].permuted_table), vec![1, 2, 5, 0]);
    assert_eq!(small(&lookups[3].table), vec![7, 7, 7, 7]);
    assert_eq!(small(&lookups[3].product), vec![0, 0, 0, 0]);
}

#[test]
fn single_lookups_do_not_depend_on_theta() {
    let pk = three_kinds();
    let advices = vec![column(&[2, 1, 2, 0]), column(&[2, 1, 5, 0])];
    let one = build_lookups(&pk, f(10), &advices, &vec![]);
    let other = build_lookups(&pk, f(1000), &advices, &vec![]);
    for i in 1..4 {
        assert_eq!(small(&one[i].input), small(&other[i].input));
        assert_eq!(small(&one[i].permuted_table), small(&other[i].permuted_table));
    }
    assert_ne!(small(&one[0].input), small(&other[0].input));
}

#[test]
fn the_product_of_a_lookup() {
    let z = lookup_product(
        f(7),
        f(11),
        &column(&[2, 1, 2, 0]),
        &column(&[1, 2, 5, 0]),
        &column(&[1, 2, 2, 0]),
        &column(&[1, 2, 5, 0]),
        3,
    );
    assert_eq!(z.len(), 4);
    assert_eq!(z[0].to_limbs(), [1, 0, 0, 0]);
    assert_eq!(
        z[1].to_limbs(),
        [0x26078acf60000002, 0x1dfdc5dc882359f8, 0, 0x3800000000000000]
    );
    assert_eq!(z[2].to_limbs(), [1, 0, 0, 0]);
    assert_eq!(z[3].to_limbs(), [1, 0, 0, 0]);
}

#[test]
fn rows_below_the_last_of_a_product_are_zero() {
    let same = column(&[1, 2, 3, 4]);
    let z = lookup_product(f(7), f(11), &same, &same, &same, &same, 1);
    assert_eq!(small(&z), vec![1, 1, 0, 0]);
}

#[test]
fn satisfied_lookups_close_and_others_do_not() {
    let pk = key(vec![
        lookup(vec![advice(0, 0)], vec![fixed(0)]),
        lookup(vec![advice(1, 0)], vec![fixed(0)]),
    ]);
    let advices = vec![column(&[2, 1, 2, 0]), column(&[2, 1, 3, 0])];
    let mut lookups = build_lookups(&pk, f(10), &advices, &vec![]);
    fill_lookup_products(&pk, f(7), f(11), &mut lookups);
    assert_eq!(lookups[0].product[0].to_limbs(), [1, 0, 0, 0]);
    assert_eq!(lookups[0].product[3].to_limbs(), [1, 0, 0, 0]);
    assert_ne!(lookups[1].product[3].to_limbs(), [1, 0, 0, 0]);
    assert_eq!(small(&lookups[0].permuted_input), vec![1, 2, 2, 0]);
}

#[test]
fn commitments_are_ordered_by_class_and_placed_by_lookup() {
    let pk = three_kinds();
    let (single, tuple) = commitment_order(&pk);
    assert_eq!(
        single,
        vec![
            PolyId::PermutedInput(2),
            PolyId::PermutedTable(2),
            PolyId::PermutedInput(3),
            PolyId::PermutedTable(3),
            PolyId::PermutedInput(1),
            PolyId::PermutedTable(1),
        ]
    );
    assert_eq!(tuple, vec![PolyId::PermutedInput(0), PolyId::PermutedTable(0)]);
    let placed = place_commitments(&pk, &vec![20, 21, 30, 31, 10, 11], &vec![0, 1]);
    assert_eq!(placed, vec![0, 1, 10, 11, 20, 21, 30, 31]);
}

#[test]
fn keys_whose_parts_do_not_fit_are_refused() {
    let mut pk = three_kinds();
    pk.cs.blinding_factors = 4;
    assert!(!pk.is_valid());
    let mut pk = three_kinds();
    pk.cs.degree = 2;
    assert!(!pk.is_valid());
    let mut pk = three_kinds();
    pk.fixed_values[0].pop();
    assert!(!pk.is_valid());
    let mut pk = three_kinds();
    pk.cs.permutation_columns.push(Column { index: 0, column_type: Any::Advice });
    assert!(!pk.is_valid());
    assert!(!key(vec![lookup(vec![advice(2, 0)], vec![fixed(0)])]).is_valid());
    assert!(!key(vec![lookup(vec![Expression::Selector(0)], vec![fixed(0)])]).is_valid());
    let mut pk = three_kinds();
    pk.cs.advice_queries.push((2, Rotation(0)));
    assert!(!pk.is_valid());
    let mut pk = three_kinds();
    pk.k = 31;
    assert!(!pk.is_valid());
}

#[test]
fn rotations_are_bounded_by_the_row_arithmetic() {
    let furthest = i32::MAX - 3;
    assert!(key(vec![lookup(vec![advice(0, furthest)], vec![fixed(0)])]).is_valid());
    assert!(!key(vec![lookup(vec![advice(0, furthest + 1)], vec![fixed(0)])]).is_valid());
    assert!(key(vec![lookup(vec![advice(0, i32::MIN)], vec![fixed(0)])]).is_valid());
    let pk = key(vec![lookup(vec![advice(0, furthest)], vec![fixed(0)])]);
    let advices = vec![column(&[2, 1, 5, 0]), column(&[0; 4])];
    let lookups = build_lookups(&pk, f(10), &advices, &vec![]);
    assert_eq!(small(&lookups[0].input), vec![2, 1, 5, 0]);
}
