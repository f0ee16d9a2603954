use halo2_gpu_prover::circuit::{Any, Column, ConstraintSystem, Lookup, ProvingKey};
use halo2_gpu_prover::create_proof_from_advices;
use halo2_gpu_prover::expression::{Expression, Rotation};
use halo2_gpu_prover::field::PrimeField;
use halo2_gpu_prover::fp::Fp;
use halo2_gpu_prover::opening::PolyId;
use halo2_gpu_prover::prover::{Action, Basis, Event, Prover, Stage};

fn f(n: u64) -> Fp {
    Fp::from_raw([n, 0, 0, 0])
}

fn column(values: &[u64]) -> Vec<Fp> {
    values.iter().map(|v| f(*v)).collect()
}

fn limbs(column: &[Fp]) -> Vec<[u64; 4]> {
    column.iter().map(|x| x.to_limbs()).collect()
}

fn omega() -> Fp {
    Fp::from_raw([0xe047f48898cdb6db, 0xff98203a45f8ebf0, 0x31744fb72326829d, 0x36bdcc7b0f28b5df])
}

fn advice(column_index: usize) -> Expression<Fp> {
    Expression::Advice { query_index: 0, column_index, rotation: Rotation(0) }
}

fn fixed(column_index: usize) -> Expression<Fp> {
    Expression::Fixed { query_index: 0, column_index, rotation: Rotation(0) }
}

/// A circuit with one advice, one fixed and one instance column, a lookup of pairs and one of
/// single values, and an advice cell tied to another.
fn key() -> ProvingKey<Fp> {
    let labels: Vec<Fp> = (0..4).map(|r| omega().pow(r)).collect();
    ProvingKey {
        k: 2,
        cs: ConstraintSystem {
            num_advice_columns: 1,
            num_instance_columns: 1,
            lookups: vec![
                Lookup {
                    input_expressions: vec![advice(0), advice(0)],
                    table_expressions: vec![fixed(0), fixed(0)],
                },
                Lookup { input_expressions: vec![advice(0)], table_expressions: vec![fixed(0)] },
            ],
            instance_queries: vec![(0, Rotation(0))],
            advice_queries: vec![(0, Rotation(0))],
            fixed_queries: vec![(0, Rotation(0))],
            permutation_columns: vec![Column { index: 0, column_type: Any::Advice }],
            degree: 3,
            blinding_factors: 0,
        },
        omega: omega(),
        omega_inv: omega().pow(3),
        fixed_values: vec![column(&[1, 2, 5, 0])],
        fixed_polys: vec![column(&[0, 0, 0, 1])],
        permutations: vec![vec![labels[2], labels[1], labels[0], labels[3]]],
        permutation_polys: vec![column(&[0, 0, 1, 0])],
    }
}

fn next<'a>(
    prover: Prover<'a, Fp, u64>,
    event: Event<Fp, u64>,
) -> (Prover<'a, Fp, u64>, Action<Fp, u64>) {
    let (prover, action) = prover.step(event);
    match action {
        Some(action) => (prover, action),
        None => panic!("the event does not fit"),
    }
}

fn committed(action: Action<Fp, u64>) -> (Basis, Vec<PolyId>) {
    match action {
        Action::Commit { basis, polys } => (basis, polys),
        _ => panic!("not a commitment"),
    }
}

fn absorbed(action: Action<Fp, u64>) -> (Vec<u64>, usize) {
    match action {
        Action::Absorb { points, challenges } => (points, challenges),
        _ => panic!("nothing is absorbed"),
    }
}

#[test]
fn a_proof_from_start_to_end() {
    let pk = key();
    assert!(pk.is_valid());
    let (prover, action) =
        create_proof_from_advices::<Fp, u64>(&pk, vec![column(&[2, 1, 2, 0])]);
    assert!(matches!(action, Action::LoadInstances));

    let (prover, action) = next(
        prover,
        Event::Instances { values: vec![column(&[1, 0, 0, 0])], polys: vec![column(&[0; 4])] },
    );
    assert_eq!(committed(action), (Basis::Lagrange, vec![PolyId::Advice(0)]));
    assert_eq!(
        limbs(prover.state().poly(PolyId::Advice(0)).unwrap()),
        limbs(&column(&[2, 1, 2, 0]))
    );

    let (prover, action) = next(prover, Event::Commitments(vec![100]));
    assert_eq!(absorbed(action), (vec![100], 1));

    let (prover, action) = next(prover, Event::Challenges(vec![f(10)]));
    assert_eq!(
        committed(action),
        (Basis::Lagrange, vec![PolyId::PermutedInput(1), PolyId::PermutedTable(1)])
    );
    assert_eq!(
        limbs(prover.state().poly(PolyId::PermutedInput(1)).unwrap()),
        limbs(&column(&[1, 2, 2, 0]))
    );

    let (prover, action) = next(prover, Event::Commitments(vec![210, 211]));
    assert_eq!(
        committed(action),
        (Basis::Lagrange, vec![PolyId::PermutedInput(0), PolyId::PermutedTable(0)])
    );

    let (prover, action) = next(prover, Event::Commitments(vec![200, 201]));
    assert_eq!(absorbed(action), (vec![200, 201, 210, 211], 2));

    let (prover, action) = next(prover, Event::Challenges(vec![f(7), f(11)]));
    match action {
        Action::CommitAndInterpolate { polys } => {
            assert_eq!(polys, vec![PolyId::LookupProduct(0), PolyId::LookupProduct(1)])
        }
        _ => panic!("the lookup products are not committed to"),
    }
    for i in 0..2 {
        let z = prover.state().poly(PolyId::LookupProduct(i)).unwrap();
        assert_eq!(z[0].to_limbs(), [1, 0, 0, 0]);
        assert_eq!(z[3].to_limbs(), [1, 0, 0, 0]);
    }
    let z = prover.state().poly(PolyId::PermutationProduct(0)).unwrap();
    assert_eq!(z[3].to_limbs(), [1, 0, 0, 0]);
    assert!(prover.state().poly(PolyId::PermutationProduct(1)).is_none());

    let (prover, action) = next(
        prover,
        Event::CommittedPolys {
            commitments: vec![300, 301],
            polys: vec![column(&[30]), column(&[31])],
        },
    );
    match action {
        Action::Interpolate { polys } => assert_eq!(
            polys,
            vec![
                PolyId::PermutedInput(0),
                PolyId::PermutedTable(0),
                PolyId::PermutedInput(1),
                PolyId::PermutedTable(1),
            ]
        ),
        _ => panic!("the permuted columns are not interpolated"),
    }

    let polys = vec![column(&[40]), column(&[41]), column(&[42]), column(&[43])];
    let (prover, action) = next(prover, Event::Polys(polys));
    match action {
        Action::CommitAndInterpolate { polys } => {
            assert_eq!(polys, vec![PolyId::PermutationProduct(0)])
        }
        _ => panic!("the permutation products are not committed to"),
    }
    let state = prover.state();
    assert_eq!(limbs(state.poly(PolyId::PermutedTable(1)).unwrap()), vec![[43, 0, 0, 0]]);
    assert_eq!(limbs(state.poly(PolyId::PermutedInput(1)).unwrap()), vec![[42, 0, 0, 0]]);
    assert_eq!(limbs(state.poly(PolyId::LookupProduct(0)).unwrap()), vec![[30, 0, 0, 0]]);

    let (prover, action) = next(
        prover,
        Event::CommittedPolys { commitments: vec![400], polys: vec![column(&[50])] },
    );
    assert_eq!(absorbed(action), (vec![400, 300, 301], 0));

    let (prover, action) = next(prover, Event::Challenges(vec![]));
    assert_eq!(committed(action), (Basis::Monomial, vec![PolyId::Random]));
    assert_eq!(
        limbs(prover.state().poly(PolyId::Random).unwrap()),
        limbs(&column(&[0, 0, 0, 0]))
    );

    let (prover, action) = next(prover, Event::Commitments(vec![500]));
    assert_eq!(absorbed(action), (vec![500], 1));

    let (prover, action) = next(prover, Event::Challenges(vec![f(13)]));
    match action {
        Action::Interpolate { polys } => assert_eq!(polys, vec![PolyId::Advice(0)]),
        _ => panic!("the advice columns are not interpolated"),
    }

    let (prover, action) = next(prover, Event::Polys(vec![column(&[60])]));
    match action {
        Action::DivideByVanishing { theta, beta, gamma, y } => {
            assert_eq!(limbs(&[theta, beta, gamma, y]), limbs(&column(&[10, 7, 11, 13])))
        }
        _ => panic!("there is no quotient"),
    }
    assert_eq!(limbs(prover.state().poly(PolyId::Advice(0)).unwrap()), vec![[60, 0, 0, 0]]);

    let (prover, action) = next(prover, Event::Quotient { x: f(17), poly: column(&[70]) });
    assert!(matches!(action, Action::Evaluate));

    // Evaluate the input in place `i` to `1000 + i`.
    let state = prover.state();
    let count = state.inputs.len();
    let evals: Vec<Vec<Fp>> = state
        .groups
        .iter()
        .map(|g| g.points.iter().map(|(place, _)| f(1000 + *place as u64)).collect())
        .collect();
    let (prover, action) = next(
        prover,
        Event::Evaluations { evals, permutation: vec![], lookups: vec![vec![], vec![]] },
    );
    match action {
        Action::Open { scalars, evaluations, queries } => {
            assert_eq!(scalars.len(), count - 1);
            assert_eq!(scalars[0].to_limbs(), [1001, 0, 0, 0]);
            assert_eq!(scalars[count - 2].to_limbs(), [999 + count as u64, 0, 0, 0]);
            assert_eq!(evaluations.len(), count);
            assert_eq!(evaluations[0].0, PolyId::Quotient);
            assert_eq!(evaluations[0].1.to_limbs(), [17, 0, 0, 0]);
            assert_eq!(evaluations[0].2.to_limbs(), [1000, 0, 0, 0]);
            let polys: Vec<PolyId> = queries.iter().map(|q| q.poly).collect();
            assert_eq!(
                polys,
                vec![
                    PolyId::Instance(0),
                    PolyId::Advice(0),
                    PolyId::Fixed(0),
                    PolyId::Permutation(0),
                    PolyId::Quotient,
                    PolyId::Random,
                ]
            );
        }
        _ => panic!("nothing is opened"),
    }
    assert_eq!(prover.state().stage, Stage::Done);
    let (prover, action) = prover.step(Event::Commitments(vec![]));
    assert!(action.is_none());
    assert_eq!(prover.state().stage, Stage::Done);
}

#[test]
fn events_that_do_not_fit_change_nothing() {
    let pk = key();
    let (prover, _) = create_proof_from_advices::<Fp, u64>(&pk, vec![column(&[2, 1, 2, 0])]);
    let (prover, action) = prover.step(Event::Commitments(vec![100]));
    assert!(action.is_none());
    assert_eq!(prover.state().stage, Stage::Instances);
    let (prover, action) = prover.step(Event::Instances {
        values: vec![column(&[1, 0, 0])],
        polys: vec![column(&[0; 4])],
    });
    assert!(action.is_none());
    let (prover, action) = prover.step(Event::Instances { values: vec![], polys: vec![] });
    assert!(action.is_none());
    let (prover, _) = next(
        prover,
        Event::Instances { values: vec![column(&[1, 0, 0, 0])], polys: vec![column(&[0; 4])] },
    );
    let (prover, action) = prover.step(Event::Commitments(vec![100, 101]));
    assert!(action.is_none());
    assert_eq!(prover.state().stage, Stage::Advices);
}

/// A commitment and a challenge that depend on nothing but what they are made of.
fn digest(words: &[u64]) -> u64 {
    words.iter().fold(1, |d: u64, w| d.wrapping_mul(0x100000001b3).wrapping_add(*w))
}

fn commit(column: &[Fp]) -> u64 {
    digest(&limbs(column).concat())
}

/// Runs a proof to its last challenge: the points that were written, and the challenges.
fn run(pk: &ProvingKey<Fp>, advices: Vec<Vec<Fp>>) -> (Vec<u64>, Vec<u64>) {
    let mut written = vec![];
    let mut squeezed = vec![];
    let (mut prover, mut action) = create_proof_from_advices::<Fp, u64>(pk, advices);
    loop {
        let state = prover.state();
        let fetch = |id: &PolyId| state.poly(*id).unwrap().clone();
        let event = match action {
            Action::LoadInstances => Event::Instances {
                values: vec![column(&[1, 0, 0, 0])],
                polys: vec![column(&[1, 1, 1, 1])],
            },
            Action::Commit { polys, .. } => {
                Event::Commitments(polys.iter().map(|id| commit(&fetch(id))).collect())
            }
            Action::CommitAndInterpolate { polys } => Event::CommittedPolys {
                commitments: polys.iter().map(|id| commit(&fetch(id))).collect(),
                polys: polys.iter().map(|id| fetch(id)).collect(),
            },
            Action::Interpolate { .. } if state.stage == Stage::AdvicePolys => {
                return (written, squeezed)
            }
            Action::Interpolate { polys } => {
                Event::Polys(polys.iter().map(|id| fetch(id)).collect())
            }
            Action::Absorb { points, challenges } => {
                written.extend(points);
                let mut answer = vec![];
                for i in 0..challenges {
                    squeezed.push(digest(&written).wrapping_add(i as u64));
                    answer.push(f(*squeezed.last().unwrap()));
                }
                Event::Challenges(answer)
            }
            _ => panic!("the proof went past its last challenge"),
        };
        (prover, action) = next(prover, event);
    }
}

#[test]
fn the_same_columns_make_the_same_proof() {
    let pk = key();
    let plain = run(&pk, vec![column(&[2, 1, 2, 0])]);
    // The same residues, each written down as another integer.
    let modulus = [0x992d30ed00000001u64, 0x224698fc094cf91b, 0, 0x4000000000000000];
    let lifted: Vec<Fp> = [2, 1, 2, 0]
        .iter()
        .map(|n| Fp::from_raw([modulus[0] + n, modulus[1], modulus[2], modulus[3]]))
        .collect();
    assert_eq!(plain, run(&pk, vec![lifted]));
    assert_eq!(plain.0.len(), 1 + 4 + 1 + 2 + 1);
    assert_eq!(plain.1.len(), 4);
    assert_ne!(plain, run(&pk, vec![column(&[1, 1, 1, 0])]));
}
