use halo2_gpu_prover::expression::{rotation_index, Expression, Rotation};
use halo2_gpu_prover::field::PrimeField;
use halo2_gpu_prover::fp::Fp;
use halo2_gpu_prover::{evaluate_expr, evaluate_exprs};

fn f(n: u64) -> Fp {
    Fp::from_raw([n, 0, 0, 0])
}

fn column(values: &[u64]) -> Vec<Fp> {
    values.iter().map(|v| f(*v)).collect()
}

fn small(values: &[Fp]) -> Vec<u64> {
    values
        .iter()
        .map(|v| {
            let limbs = v.to_limbs();
            assert_eq!(limbs[1..], [0, 0, 0]);
            limbs[0]
        })
        .collect()
}

fn fixed(column_index: usize, rotation: i32) -> Expression<Fp> {
    Expression::Fixed { query_index: 0, column_index, rotation: Rotation(rotation) }
}

fn advice(column_index: usize, rotation: i32) -> Expression<Fp> {
    Expression::Advice { query_index: 0, column_index, rotation: Rotation(rotation) }
}

fn instance(column_index: usize, rotation: i32) -> Expression<Fp> {
    Expression::Instance { query_index: 0, column_index, rotation: Rotation(rotation) }
}

#[test]
fn rotations_wrap_around() {
    assert_eq!(rotation_index(0, Rotation::prev(), 1, 4), 3);
    assert_eq!(rotation_index(3, Rotation::next(), 1, 4), 0);
    assert_eq!(rotation_index(2, Rotation::cur(), 1, 4), 2);
    assert_eq!(rotation_index(1, Rotation(-9), 1, 4), 0);
    assert_eq!(rotation_index(1, Rotation(3), 4, 8), 5);
}

#[test]
fn an_expression_is_evaluated_in_every_row() {
    let fixed_column = column(&[1, 2, 3, 4]);
    let advice_column = column(&[5, 6, 7, 8]);
    let instance_column = column(&[9, 0, 0, 0]);
    // 2 (fixed + advice of the next row) instance of the row before + 10
    let e = Expression::Sum(
        Box::new(Expression::Scaled(
            Box::new(Expression::Product(
                Box::new(Expression::Sum(Box::new(fixed(0, 0)), Box::new(advice(0, 1)))),
                Box::new(instance(0, -1)),
            )),
            f(2),
        )),
        Box::new(Expression::Constant(f(10))),
    );
    let mut res = column(&[99, 99, 99, 99]);
    evaluate_expr(
        &e,
        4,
        1,
        &[&fixed_column],
        &[&advice_column],
        &[&instance_column],
        &mut res,
    );
    assert_eq!(small(&res), vec![10, 172, 10, 10]);
}

#[test]
fn negation_of_a_column() {
    let advice_column = column(&[5, 0]);
    let e = Expression::Sum(
        Box::new(Expression::Negated(Box::new(advice(0, 0)))),
        Box::new(Expression::Constant(f(6))),
    );
    let mut res = column(&[0, 0]);
    evaluate_expr(&e, 2, 1, &[], &[&advice_column], &[], &mut res);
    assert_eq!(small(&res), vec![1, 6]);
}

#[test]
fn the_factor_beside_a_zero_is_not_looked_at() {
    let advice_column = column(&[0, 0]);
    let e = Expression::Product(Box::new(advice(0, 0)), Box::new(Expression::Selector(0)));
    let mut res = column(&[7, 7]);
    evaluate_expr(&e, 2, 1, &[], &[&advice_column], &[], &mut res);
    assert_eq!(small(&res), vec![0, 0]);
}

#[test]
fn scaled_rotations_skip_rows() {
    let advice_column = column(&[0, 1, 2, 3, 4, 5, 6, 7]);
    let mut res = column(&[0; 8]);
    evaluate_expr(&advice(0, 1), 8, 4, &[], &[&advice_column], &[], &mut res);
    assert_eq!(small(&res), vec![4, 5, 6, 7, 0, 1, 2, 3]);
}

#[test]
fn expressions_are_folded_onto_what_is_there() {
    let advice_column = column(&[1, 2]);
    let fixed_column = column(&[3, 4]);
    let mut res = column(&[5, 0]);
    let es = [advice(0, 0), fixed(0, 0)];
    evaluate_exprs(&es, 2, 1, &[&fixed_column], &[&advice_column], &[], f(10), &mut res);
    assert_eq!(small(&res), vec![513, 24]);
}

#[test]
fn a_single_expression_is_folded_to_itself() {
    let advice_column = column(&[8, 9]);
    let mut res = column(&[0, 0]);
    evaluate_exprs(&[advice(0, 0)], 2, 1, &[], &[&advice_column], &[], f(10), &mut res);
    assert_eq!(small(&res), vec![8, 9]);
}

#[test]
fn no_expression_leaves_the_rows() {
    let mut res = column(&[8, 9]);
    evaluate_exprs::<Fp>(&[], 2, 1, &[], &[], &[], f(10), &mut res);
    assert_eq!(small(&res), vec![8, 9]);
}

#[test]
fn pure_expressions_name_their_column() {
    assert!(matches!(Expression::Constant(f(3)).is_constant(), Some(x) if x.equals(f(3))));
    assert!(fixed(2, 0).is_constant().is_none());
    assert_eq!(fixed(2, 0).is_pure_fixed(), Some(2));
    assert_eq!(fixed(2, 1).is_pure_fixed(), None);
    assert_eq!(advice(3, 0).is_pure_advice(), Some(3));
    assert_eq!(advice(3, -1).is_pure_advice(), None);
    assert_eq!(instance(4, 0).is_pure_instance(), Some(4));
    assert_eq!(instance(4, 2).is_pure_instance(), None);
    assert_eq!(advice(3, 0).is_pure_fixed(), None);
}
