//! The course of a proof.
//!
//! A proof alternates between work that only the device can do, or that only the transcript can
//! answer, and decisions. This module holds the decisions: [`Prover::step`] takes what came back
//! from the last [`Action`] and says what is to be done next.
use crate::circuit::{all_have_rows, have_rows, lemma_pow2_small, ProvingKey};
use crate::commitments::{
    commitment_order, permuted_ids, place_commitments, placed, single_ids, tuple_ids,
};
use crate::field::{repeat, values, zeros, PrimeField};
use crate::lookup_columns::{build_lookups, circuit_cells, LookupColumns};
use crate::opening::{
    asked, evaluation_inputs, evaluation_points, evaluations_fit, fit_evaluations, group_by_poly,
    grouped, lemma_place_in_range, opening_queries, points, prover_queries, scatter_evaluations,
    EvaluationGroup, PolyId, ProverQuery,
};
use crate::permutation::is_product;
use crate::products::{circuit_argument, circuit_permutation_products, fill_lookup_products};
use vstd::prelude::*;

verus! {

/// Over which basis a column is committed to.
#[derive(Clone, Copy, Debug, PartialEq, Eq, Structural)]
pub enum Basis {
    Lagrange,
    Monomial,
}

/// What is to be done next.
#[derive(Debug)]
pub enum Action<F, C> {
    /// Enter the instances into the transcript, and make their columns and polynomials.
    LoadInstances,
    /// Commit to some columns.
    Commit { basis: Basis, polys: Vec<PolyId> },
    /// Commit to some columns over the Lagrange basis, and turn them into coefficients.
    CommitAndInterpolate { polys: Vec<PolyId> },
    /// Turn some columns into coefficients.
    Interpolate { polys: Vec<PolyId> },
    /// Write points to the transcript, then squeeze some challenges from it.
    Absorb { points: Vec<C>, challenges: usize },
    /// Make the quotient polynomial, commit to it, and squeeze the evaluation point.
    DivideByVanishing { theta: F, beta: F, gamma: F, y: F },
    /// Evaluate the polynomials of the groups at their points.
    Evaluate,
    /// Write the scalars to the transcript, then open the queries together. The evaluations are
    /// those of the polynomials at the points.
    Open { scalars: Vec<F>, evaluations: Vec<(PolyId, F, F)>, queries: Vec<ProverQuery<F>> },
}

/// What came back from an action.
#[derive(Debug)]
pub enum Event<F, C> {
    /// The instance columns, as values and as coefficients.
    Instances { values: Vec<Vec<F>>, polys: Vec<Vec<F>> },
    /// One commitment for each column.
    Commitments(Vec<C>),
    /// One commitment and the coefficients for each column.
    CommittedPolys { commitments: Vec<C>, polys: Vec<Vec<F>> },
    /// The coefficients for each column.
    Polys(Vec<Vec<F>>),
    /// The challenges, in the order in which they were squeezed.
    Challenges(Vec<F>),
    /// The evaluation point and the quotient polynomial.
    Quotient { x: F, poly: Vec<F> },
    /// The evaluations of each group, the queries that open the permutation products, and those
    /// that open each lookup.
    Evaluations {
        evals: Vec<Vec<F>>,
        permutation: Vec<ProverQuery<F>>,
        lookups: Vec<Vec<ProverQuery<F>>>,
    },
}

/// What a proof is waiting for.
#[derive(Clone, Copy, Debug, PartialEq, Eq, Structural)]
pub enum Stage {
    /// The instance columns.
    Instances,
    /// The commitments to the advice columns.
    Advices,
    /// The challenge that compresses the lookups.
    Theta,
    /// The commitments to the permuted columns of the lookups with single expressions.
    SingleLookups,
    /// The commitments to those of the other lookups.
    TupleLookups,
    /// The challenges of the product arguments.
    BetaGamma,
    /// The commitments to the lookup products, and their coefficients.
    LookupProducts,
    /// The coefficients of the permuted columns.
    PermutedColumns,
    /// The commitments to the permutation products, and their coefficients.
    PermutationProducts,
    /// That the commitments to all products have been written.
    WrittenProducts,
    /// The commitment to the blinding polynomial.
    Random,
    /// The challenge that combines the constraints.
    Y,
    /// The coefficients of the advice columns.
    AdvicePolys,
    /// The quotient polynomial.
    Quotient,
    /// The evaluations.
    Evaluations,
    /// Nothing.
    Done,
}

impl Stage {
    /// The place of a stage in the course of a proof.
    pub open spec fn place(self) -> int {
        match self {
            Stage::Instances => 0,
            Stage::Advices => 1,
            Stage::Theta => 2,
            Stage::SingleLookups => 3,
            Stage::TupleLookups => 4,
            Stage::BetaGamma => 5,
            Stage::LookupProducts => 6,
            Stage::PermutedColumns => 7,
            Stage::PermutationProducts => 8,
            Stage::WrittenProducts => 9,
            Stage::Random => 10,
            Stage::Y => 11,
            Stage::AdvicePolys => 12,
            Stage::Quotient => 13,
            Stage::Evaluations => 14,
            Stage::Done => 15,
        }
    }
}

/// All that a proof holds.
///
/// Columns are values until they are turned into coefficients, which then take their place.
#[derive(Debug)]
pub struct ProverState<'a, F, C> {
    pub pk: &'a ProvingKey<F>,
    pub stage: Stage,
    pub advices: Vec<Vec<F>>,
    pub instance_values: Vec<Vec<F>>,
    pub instance_polys: Vec<Vec<F>>,
    pub lookups: Vec<LookupColumns<F>>,
    pub products: Vec<Vec<F>>,
    pub random: Vec<F>,
    pub quotient: Vec<F>,
    pub theta: F,
    pub beta: F,
    pub gamma: F,
    pub y: F,
    pub x: F,
    pub single_commitments: Vec<C>,
    pub lookup_commitments: Vec<C>,
    pub inputs: Vec<(PolyId, F)>,
    pub groups: Vec<EvaluationGroup<F>>,
}

/// The polynomials that are named by an index alone and handled all together.
#[derive(Clone, Copy, Debug, PartialEq, Eq, Structural)]
pub enum Family {
    /// The advice columns.
    Advice,
    /// The products of the lookups.
    LookupProduct,
    /// The products of the permutation argument.
    PermutationProduct,
}

impl Family {
    /// A member of the family.
    pub open spec fn member(self, i: usize) -> PolyId {
        match self {
            Family::Advice => PolyId::Advice(i),
            Family::LookupProduct => PolyId::LookupProduct(i),
            Family::PermutationProduct => PolyId::PermutationProduct(i),
        }
    }

    /// The first `n` members.
    pub open spec fn members(self, n: nat) -> Seq<PolyId> {
        Seq::new(n, |i: int| self.member(i as usize))
    }

    /// The first `n` members.
    fn list(self, n: usize) -> (r: Vec<PolyId>)
        ensures
            r@ == self.members(n as nat),
    {
        let mut r: Vec<PolyId> = Vec::new();
        for i in 0..n
            invariant
                r@ == self.members(i as nat),
        {
            r.push(
                match self {
                    Family::Advice => PolyId::Advice(i),
                    Family::LookupProduct => PolyId::LookupProduct(i),
                    Family::PermutationProduct => PolyId::PermutationProduct(i),
                },
            );
            assert(r@ =~= self.members((i + 1) as nat));
        }
        r
    }
}

impl<'a, F: PrimeField, C: Copy> ProverState<'a, F, C> {
    /// The state is one that a proof can be in.
    pub open spec fn valid(self) -> bool {
        let size = self.pk.spec_size();
        let lookups = self.pk.cs.lookups@;
        let place = self.stage.place();
        &&& self.pk.valid()
        &&& self.advices@.len() >= self.pk.cs.num_advice_columns
        &&& place <= Stage::AdvicePolys.place() ==> have_rows(self.advices@, size)
        &&& place > Stage::Instances.place() ==> {
            &&& self.instance_values@.len() == self.pk.cs.num_instance_columns
            &&& self.instance_polys@.len() == self.pk.cs.num_instance_columns
            &&& have_rows(self.instance_values@, size)
        }
        &&& place > Stage::Theta.place() ==> self.lookups@.len() == lookups.len()
        &&& Stage::Theta.place() < place <= Stage::BetaGamma.place() ==> forall|i: int|
            0 <= i < self.lookups@.len() ==> (#[trigger] self.lookups@[i]).has_rows(size)
        &&& self.stage == Stage::TupleLookups ==> self.single_commitments@.len() == single_ids(
            lookups,
        ).len()
        &&& self.stage == Stage::Evaluations ==> {
            &&& points(self.inputs@) == evaluation_points(
                *self.pk,
                self.x.value(),
                self.products@.len() as int,
            )
            &&& grouped(self.inputs@, self.groups@, self.inputs@.len() as int)
        }
    }

    /// Nothing is known yet but the key and the advice columns.
    pub open spec fn is_initial(self, pk: &'a ProvingKey<F>, advices: Vec<Vec<F>>) -> bool {
        &&& self.pk == pk
        &&& self.stage == Stage::Instances
        &&& self.advices == advices
        &&& self.instance_values@.len() == 0
        &&& self.instance_polys@.len() == 0
        &&& self.lookups@.len() == 0
        &&& self.products@.len() == 0
        &&& self.random@.len() == 0
        &&& self.quotient@.len() == 0
        &&& self.theta.value() == 0
        &&& self.beta.value() == 0
        &&& self.gamma.value() == 0
        &&& self.y.value() == 0
        &&& self.x.value() == 0
        &&& self.single_commitments@.len() == 0
        &&& self.lookup_commitments@.len() == 0
        &&& self.inputs@.len() == 0
        &&& self.groups@.len() == 0
    }

    /// Whether an event answers what the proof is waiting for.
    pub open spec fn fits(self, event: Event<F, C>) -> bool {
        let lookups = self.pk.cs.lookups@;
        match (self.stage, event) {
            (Stage::Instances, Event::Instances { values, polys }) => {
                &&& values@.len() == self.pk.cs.num_instance_columns
                &&& polys@.len() == self.pk.cs.num_instance_columns
                &&& have_rows(values@, self.pk.spec_size())
            },
            (Stage::Advices, Event::Commitments(commitments)) => commitments@.len()
                == self.advices@.len(),
            (Stage::Theta, Event::Challenges(challenges)) => challenges@.len() == 1,
            (Stage::SingleLookups, Event::Commitments(commitments)) => commitments@.len()
                == single_ids(lookups).len(),
            (Stage::TupleLookups, Event::Commitments(commitments)) => commitments@.len()
                == tuple_ids(lookups).len(),
            (Stage::BetaGamma, Event::Challenges(challenges)) => challenges@.len() == 2,
            (Stage::LookupProducts, Event::CommittedPolys { commitments, polys }) => {
                &&& commitments@.len() == lookups.len()
                &&& polys@.len() == lookups.len()
            },
            (Stage::PermutedColumns, Event::Polys(polys)) => polys@.len() == 2 * lookups.len(),
            (Stage::PermutationProducts, Event::CommittedPolys { commitments, polys }) => {
                &&& commitments@.len() == self.products@.len()
                &&& polys@.len() == self.products@.len()
            },
            (Stage::WrittenProducts, Event::Challenges(challenges)) => challenges@.len() == 0,
            (Stage::Random, Event::Commitments(commitments)) => commitments@.len() == 1,
            (Stage::Y, Event::Challenges(challenges)) => challenges@.len() == 1,
            (Stage::AdvicePolys, Event::Polys(polys)) => polys@.len() == self.advices@.len(),
            (Stage::Quotient, Event::Quotient { .. }) => true,
            (Stage::Evaluations, Event::Evaluations { evals, lookups: opened, .. }) => {
                &&& evaluations_fit(self.groups@, evals@)
                &&& opened@.len() == lookups.len()
            },
            _ => false,
        }
    }

    /// Whether an event that fits leads from this state to `next`, with `action` to be done.
    pub open spec fn leads_to(
        self,
        event: Event<F, C>,
        next: ProverState<'a, F, C>,
        action: Action<F, C>,
    ) -> bool {
        match (self.stage, event) {
            (Stage::Instances, Event::Instances { values, polys }) => self.takes_instances(
                values,
                polys,
                next,
                action,
            ),
            (Stage::Advices, Event::Commitments(commitments)) => {
                &&& next == (ProverState { stage: Stage::Theta, ..self })
                &&& action == (Action::<F, C>::Absorb { points: commitments, challenges: 1 })
            },
            (Stage::Theta, Event::Challenges(challenges)) => self.takes_theta(
                challenges@[0],
                next,
                action,
            ),
            (Stage::SingleLookups, Event::Commitments(commitments)) => {
                &&& next == (ProverState {
                    stage: Stage::TupleLookups,
                    single_commitments: commitments,
                    ..self
                })
                &&& action matches Action::Commit { basis, polys }
                &&& basis == Basis::Lagrange
                &&& polys@ == tuple_ids(self.pk.cs.lookups@)
            },
            (Stage::TupleLookups, Event::Commitments(commitments)) => {
                &&& next == (ProverState { stage: Stage::BetaGamma, ..self })
                &&& action matches Action::Absorb { points, challenges }
                &&& points@ == placed(
                    self.pk.cs.lookups@,
                    self.single_commitments@,
                    commitments@,
                )
                &&& challenges == 2
            },
            (Stage::BetaGamma, Event::Challenges(challenges)) => self.takes_beta_gamma(
                challenges@[0],
                challenges@[1],
                next,
                action,
            ),
            (
                Stage::LookupProducts,
                Event::CommittedPolys { commitments, polys },
            ) => self.takes_lookup_products(commitments, polys@, next, action),
            (Stage::PermutedColumns, Event::Polys(polys)) => self.takes_permuted_columns(
                polys@,
                next,
                action,
            ),
            (
                Stage::PermutationProducts,
                Event::CommittedPolys { commitments, polys },
            ) => self.takes_permutation_products(commitments@, polys, next, action),
            (Stage::WrittenProducts, Event::Challenges(_)) => self.takes_nothing(next, action),
            (Stage::Random, Event::Commitments(commitments)) => {
                &&& next == (ProverState { stage: Stage::Y, ..self })
                &&& action == (Action::<F, C>::Absorb { points: commitments, challenges: 1 })
            },
            (Stage::Y, Event::Challenges(challenges)) => {
                &&& next == (ProverState { stage: Stage::AdvicePolys, y: challenges@[0], ..self })
                &&& action matches Action::Interpolate { polys }
                &&& polys@ == Family::Advice.members(self.advices@.len())
            },
            (Stage::AdvicePolys, Event::Polys(polys)) => {
                &&& next == (ProverState { stage: Stage::Quotient, advices: polys, ..self })
                &&& action == (Action::<F, C>::DivideByVanishing {
                    theta: self.theta,
                    beta: self.beta,
                    gamma: self.gamma,
                    y: self.y,
                })
            },
            (Stage::Quotient, Event::Quotient { x, poly }) => self.takes_quotient(
                x,
                poly,
                next,
                action,
            ),
            (
                Stage::Evaluations,
                Event::Evaluations { evals, permutation, lookups },
            ) => self.takes_evaluations(evals@, permutation@, lookups@, next, action),
            _ => false,
        }
    }

    /// The instances are kept, and the advice columns are committed to.
    pub open spec fn takes_instances(
        self,
        values: Vec<Vec<F>>,
        polys: Vec<Vec<F>>,
        next: ProverState<'a, F, C>,
        action: Action<F, C>,
    ) -> bool {
        &&& next == (ProverState {
            stage: Stage::Advices,
            instance_values: values,
            instance_polys: polys,
            ..self
        })
        &&& action matches Action::Commit { basis, polys }
        &&& basis == Basis::Lagrange
        &&& polys@ == Family::Advice.members(self.advices@.len())
    }

    /// The lookups are built, and those with single expressions are committed to.
    pub open spec fn takes_theta(
        self,
        theta: F,
        next: ProverState<'a, F, C>,
        action: Action<F, C>,
    ) -> bool {
        &&& next == (ProverState {
            stage: Stage::SingleLookups,
            theta,
            lookups: next.lookups,
            ..self
        })
        &&& next.lookups@.len() == self.pk.cs.lookups@.len()
        &&& forall|i: int|
            0 <= i < next.lookups@.len() ==> (#[trigger] next.lookups@[i]).is_built(
                *self.pk,
                theta.value(),
                circuit_cells(*self.pk, self.advices@, self.instance_values@),
                i,
            )
        &&& action matches Action::Commit { basis, polys }
        &&& basis == Basis::Lagrange
        &&& polys@ == single_ids(self.pk.cs.lookups@)
    }

    /// The products are made, and those of the lookups are committed to.
    pub open spec fn takes_beta_gamma(
        self,
        beta: F,
        gamma: F,
        next: ProverState<'a, F, C>,
        action: Action<F, C>,
    ) -> bool {
        &&& next == (ProverState {
            stage: Stage::LookupProducts,
            beta,
            gamma,
            lookups: next.lookups,
            products: next.products,
            ..self
        })
        &&& next.lookups@.len() == self.lookups@.len()
        &&& forall|i: int|
            0 <= i < self.lookups@.len() ==> self.lookups@[i].filled(
                beta,
                gamma,
                self.pk.spec_unusable_rows_start(),
                #[trigger] next.lookups@[i],
            )
        &&& is_product(
            circuit_argument(
                *self.pk,
                beta,
                gamma,
                circuit_cells(*self.pk, self.advices@, self.instance_values@),
            ),
            self.pk.cs.degree - 2,
            self.pk.spec_unusable_rows_start(),
            next.products@,
        )
        &&& action matches Action::CommitAndInterpolate { polys }
        &&& polys@ == Family::LookupProduct.members(self.lookups@.len())
    }

    /// The lookup products become coefficients; the permuted columns are to follow.
    pub open spec fn takes_lookup_products(
        self,
        commitments: Vec<C>,
        polys: Seq<Vec<F>>,
        next: ProverState<'a, F, C>,
        action: Action<F, C>,
    ) -> bool {
        &&& next == (ProverState {
            stage: Stage::PermutedColumns,
            lookups: next.lookups,
            lookup_commitments: commitments,
            ..self
        })
        &&& next.lookups@ == Seq::new(
            self.lookups@.len(),
            |i: int| LookupColumns { product: polys[i], ..self.lookups@[i] },
        )
        &&& action matches Action::Interpolate { polys: wanted }
        &&& wanted@ == permuted_ids(self.lookups@.len())
    }

    /// The permuted columns become coefficients; the permutation products are committed to.
    pub open spec fn takes_permuted_columns(
        self,
        polys: Seq<Vec<F>>,
        next: ProverState<'a, F, C>,
        action: Action<F, C>,
    ) -> bool {
        &&& next == (ProverState {
            stage: Stage::PermutationProducts,
            lookups: next.lookups,
            ..self
        })
        &&& next.lookups@ == Seq::new(
            self.lookups@.len(),
            |i: int|
                LookupColumns {
                    permuted_input: polys[2 * i],
                    permuted_table: polys[2 * i + 1],
                    ..self.lookups@[i]
                },
        )
        &&& action matches Action::CommitAndInterpolate { polys: wanted }
        &&& wanted@ == Family::PermutationProduct.members(self.products@.len())
    }

    /// The permutation products become coefficients; the commitments to them and to the lookup
    /// products are written.
    pub open spec fn takes_permutation_products(
        self,
        commitments: Seq<C>,
        polys: Vec<Vec<F>>,
        next: ProverState<'a, F, C>,
        action: Action<F, C>,
    ) -> bool {
        &&& next == (ProverState { stage: Stage::WrittenProducts, products: polys, ..self })
        &&& action matches Action::Absorb { points, challenges }
        &&& points@ == commitments + self.lookup_commitments@
        &&& challenges == 0
    }

    /// The blinding polynomial, which is zero, is made and committed to.
    pub open spec fn takes_nothing(
        self,
        next: ProverState<'a, F, C>,
        action: Action<F, C>,
    ) -> bool {
        &&& next == (ProverState { stage: Stage::Random, random: next.random, ..self })
        &&& values(next.random@) == zeros(self.pk.spec_size())
        &&& action matches Action::Commit { basis, polys }
        &&& basis == Basis::Monomial
        &&& polys@ == seq![PolyId::Random]
    }

    /// All evaluations are listed, gathered by polynomial.
    pub open spec fn takes_quotient(
        self,
        x: F,
        poly: Vec<F>,
        next: ProverState<'a, F, C>,
        action: Action<F, C>,
    ) -> bool {
        &&& next == (ProverState {
            stage: Stage::Evaluations,
            x,
            quotient: poly,
            inputs: next.inputs,
            groups: next.groups,
            ..self
        })
        &&& points(next.inputs@) == evaluation_points(
            *self.pk,
            x.value(),
            self.products@.len() as int,
        )
        &&& grouped(next.inputs@, next.groups@, next.inputs@.len() as int)
        &&& action == Action::<F, C>::Evaluate
    }

    /// The evaluations, but for that of the quotient, enter the transcript; all queries are
    /// opened.
    pub open spec fn takes_evaluations(
        self,
        evals: Seq<Vec<F>>,
        permutation: Seq<ProverQuery<F>>,
        lookups: Seq<Vec<ProverQuery<F>>>,
        next: ProverState<'a, F, C>,
        action: Action<F, C>,
    ) -> bool {
        &&& next == (ProverState { stage: Stage::Done, ..self })
        &&& action matches Action::Open { scalars, evaluations, queries }
        &&& evaluations@.len() == self.inputs@.len()
        &&& forall|i: int|
            0 <= i < self.inputs@.len() ==> (#[trigger] evaluations@[i]).0 == self.inputs@[i].0
                && evaluations@[i].1 == self.inputs@[i].1
        &&& forall|g: int, j: int|
            0 <= g < self.groups@.len() && 0 <= j < self.groups@[g].points@.len()
                ==> evaluations@[#[trigger] self.groups@[g].points@[j].0 as int].2 == evals[g]@[j]
        &&& scalars@ == Seq::new(
            (self.inputs@.len() - 1) as nat,
            |i: int| evaluations@[i + 1].2,
        )
        &&& asked(queries@) == opening_queries(*self.pk, self.x.value(), permutation, lookups)
    }

    /// The column or polynomial that goes by a name, if there is one.
    pub open spec fn spec_poly(self, id: PolyId) -> Option<Vec<F>> {
        match id {
            PolyId::Instance(i) => nth(self.instance_polys@, i),
            PolyId::Advice(i) => nth(self.advices@, i),
            PolyId::Fixed(i) => nth(self.pk.fixed_polys@, i),
            PolyId::Permutation(i) => nth(self.pk.permutation_polys@, i),
            PolyId::PermutationProduct(i) => nth(self.products@, i),
            PolyId::PermutedInput(i) => if i < self.lookups@.len() {
                Some(self.lookups@[i as int].permuted_input)
            } else {
                None
            },
            PolyId::PermutedTable(i) => if i < self.lookups@.len() {
                Some(self.lookups@[i as int].permuted_table)
            } else {
                None
            },
            PolyId::LookupProduct(i) => if i < self.lookups@.len() {
                Some(self.lookups@[i as int].product)
            } else {
                None
            },
            PolyId::Quotient => Some(self.quotient),
            PolyId::Random => Some(self.random),
        }
    }

    /// The column or polynomial that goes by a name, if there is one.
    pub fn poly(&self, id: PolyId) -> (r: Option<&Vec<F>>)
        ensures
            r is Some == self.spec_poly(id) is Some,
            r matches Some(column) ==> Some(*column) == self.spec_poly(id),
    {
        match id {
            PolyId::Instance(i) => get(&self.instance_polys, i),
            PolyId::Advice(i) => get(&self.advices, i),
            PolyId::Fixed(i) => get(&self.pk.fixed_polys, i),
            PolyId::Permutation(i) => get(&self.pk.permutation_polys, i),
            PolyId::PermutationProduct(i) => get(&self.products, i),
            PolyId::PermutedInput(i) => if i < self.lookups.len() {
                Some(&self.lookups[i].permuted_input)
            } else {
                None
            },
            PolyId::PermutedTable(i) => if i < self.lookups.len() {
                Some(&self.lookups[i].permuted_table)
            } else {
                None
            },
            PolyId::LookupProduct(i) => if i < self.lookups.len() {
                Some(&self.lookups[i].product)
            } else {
                None
            },
            PolyId::Quotient => Some(&self.quotient),
            PolyId::Random => Some(&self.random),
        }
    }
}

/// The entry of a sequence, if there is one.
pub open spec fn nth<T>(s: Seq<T>, i: usize) -> Option<T> {
    if i < s.len() {
        Some(s[i as int])
    } else {
        None
    }
}

fn get<T>(s: &Vec<T>, i: usize) -> (r: Option<&T>)
    ensures
        r is Some == nth(s@, i) is Some,
        r matches Some(x) ==> Some(*x) == nth(s@, i),
{
    if i < s.len() {
        Some(&s[i])
    } else {
        None
    }
}

fn list_permuted_columns(n: usize) -> (r: Vec<PolyId>)
    ensures
        r@ == permuted_ids(n as nat),
{
    let mut r: Vec<PolyId> = Vec::new();
    for i in 0..n
        invariant
            r@ == permuted_ids(i as nat),
    {
        r.push(PolyId::PermutedInput(i));
        r.push(PolyId::PermutedTable(i));
        assert(r@ =~= permuted_ids((i + 1) as nat));
    }
    r
}

/// Appends copies of some items.
fn push_all<T: Copy>(part: &Vec<T>, all: &mut Vec<T>)
    ensures
        final(all)@ == old(all)@ + part@,
{
    let ghost before = all@;
    for i in 0..part.len()
        invariant
            all@ == before + part@.take(i as int),
    {
        all.push(part[i]);
        assert(all@ =~= before + part@.take(i + 1));
    }
    assert(part@.take(part@.len() as int) =~= part@);
}

/// Puts coefficients in the place of the lookup products.
fn replace_products<F: PrimeField>(lookups: &mut Vec<LookupColumns<F>>, polys: Vec<Vec<F>>)
    requires
        polys@.len() == old(lookups)@.len(),
    ensures
        final(lookups)@ == Seq::new(
            old(lookups)@.len(),
            |i: int| LookupColumns { product: polys@[i], ..old(lookups)@[i] },
        ),
{
    let ghost before = lookups@;
    let ghost all = polys@;
    let count: usize = lookups.len();
    let mut i: usize = 0;
    for poly in iter: polys
        invariant
            iter.seq() == all,
            i == iter.index(),
            count == before.len(),
            all.len() == before.len(),
            lookups@.len() == before.len(),
            forall|k: int|
                0 <= k < i ==> #[trigger] lookups@[k] == (LookupColumns {
                    product: all[k],
                    ..before[k]
                }),
            forall|k: int| i <= k < before.len() ==> #[trigger] lookups@[k] == before[k],
    {
        lookups[i].product = poly;
        i += 1;
    }
    assert(lookups@ =~= Seq::new(
        before.len(),
        |i: int| LookupColumns { product: all[i], ..before[i] },
    ));
}

/// Puts coefficients in the place of the permuted columns.
fn replace_permuted<F: PrimeField>(lookups: &mut Vec<LookupColumns<F>>, polys: Vec<Vec<F>>)
    requires
        polys@.len() == 2 * old(lookups)@.len(),
    ensures
        final(lookups)@ == Seq::new(
            old(lookups)@.len(),
            |i: int|
                LookupColumns {
                    permuted_input: polys@[2 * i],
                    permuted_table: polys@[2 * i + 1],
                    ..old(lookups)@[i]
                },
        ),
{
    let ghost before = lookups@;
    let ghost all = polys@;
    let total: usize = polys.len();
    let mut k: usize = 0;
    for poly in iter: polys
        invariant
            iter.seq() == all,
            k == iter.index(),
            total == all.len(),
            all.len() == 2 * before.len(),
            lookups@.len() == before.len(),
            forall|i: int|
                0 <= i < before.len() ==> #[trigger] lookups@[i] == (LookupColumns {
                    permuted_input: if 2 * i < k {
                        all[2 * i]
                    } else {
                        before[i].permuted_input
                    },
                    permuted_table: if 2 * i + 1 < k {
                        all[2 * i + 1]
                    } else {
                        before[i].permuted_table
                    },
                    ..before[i]
                }),
    {
        if k % 2 == 0 {
            lookups[k / 2].permuted_input = poly;
        } else {
            lookups[k / 2].permuted_table = poly;
        }
        k += 1;
    }
    assert(lookups@ =~= Seq::new(
        before.len(),
        |i: int|
            LookupColumns {
                permuted_input: all[2 * i],
                permuted_table: all[2 * i + 1],
                ..before[i]
            },
    ));
}

/// The evaluations of the inputs, each with its polynomial and its point.
fn tabulate<F: PrimeField>(inputs: &Vec<(PolyId, F)>, evals: &Vec<F>) -> (r: Vec<(PolyId, F, F)>)
    requires
        evals@.len() == inputs@.len(),
    ensures
        r@ == Seq::new(
            inputs@.len(),
            |i: int| (inputs@[i].0, inputs@[i].1, evals@[i]),
        ),
{
    let mut r: Vec<(PolyId, F, F)> = Vec::new();
    for i in 0..inputs.len()
        invariant
            evals@.len() == inputs@.len(),
            r@.len() == i,
            forall|k: int|
                0 <= k < i ==> #[trigger] r@[k] == (inputs@[k].0, inputs@[k].1, evals@[k]),
    {
        let (poly, x) = inputs[i];
        r.push((poly, x, evals[i]));
    }
    assert(r@ =~= Seq::new(
        inputs@.len(),
        |i: int| (inputs@[i].0, inputs@[i].1, evals@[i]),
    ));
    r
}

/// All evaluations but the first.
fn skip_first<F: PrimeField>(evals: &Vec<F>) -> (r: Vec<F>)
    requires
        evals@.len() > 0,
    ensures
        r@ == Seq::new((evals@.len() - 1) as nat, |i: int| evals@[i + 1]),
{
    let mut r: Vec<F> = Vec::new();
    for i in 1..evals.len()
        invariant
            r@.len() == i - 1,
            forall|k: int| 0 <= k < i - 1 ==> #[trigger] r@[k] == evals@[k + 1],
    {
        r.push(evals[i]);
    }
    r
}

impl<'a, F: PrimeField, C: Copy> ProverState<'a, F, C> {
    fn take_instances(&mut self, values: Vec<Vec<F>>, polys: Vec<Vec<F>>) -> (r: Option<
        Action<F, C>,
    >)
        requires
            old(self).valid(),
            old(self).stage == Stage::Instances,
        ensures
            final(self).valid(),
            r is Some == old(self).fits(Event::Instances { values, polys }),
            r is None ==> *final(self) == *old(self),
            r matches Some(action) ==> old(self).takes_instances(
                values,
                polys,
                *final(self),
                action,
            ),
    {
        proof {
            lemma_pow2_small(self.pk.k as nat);
        }
        let count: usize = self.pk.cs.num_instance_columns;
        if values.len() != count || polys.len() != count || !all_have_rows(
            &values,
            self.pk.size(),
        ) {
            return None;
        }
        self.instance_values = values;
        self.instance_polys = polys;
        self.stage = Stage::Advices;
        let polys = Family::Advice.list(self.advices.len());
        Some(Action::Commit { basis: Basis::Lagrange, polys })
    }

    fn take_theta(&mut self, theta: F) -> (action: Action<F, C>)
        requires
            old(self).valid(),
            old(self).stage == Stage::Theta,
        ensures
            final(self).valid(),
            old(self).takes_theta(theta, *final(self), action),
    {
        let pk = self.pk;
        self.lookups = build_lookups(pk, theta, &self.advices, &self.instance_values);
        self.theta = theta;
        self.stage = Stage::SingleLookups;
        Action::Commit { basis: Basis::Lagrange, polys: commitment_order(pk).0 }
    }

    fn take_beta_gamma(&mut self, beta: F, gamma: F) -> (action: Action<F, C>)
        requires
            old(self).valid(),
            old(self).stage == Stage::BetaGamma,
        ensures
            final(self).valid(),
            old(self).takes_beta_gamma(beta, gamma, *final(self), action),
    {
        let pk = self.pk;
        fill_lookup_products(pk, beta, gamma, &mut self.lookups);
        self.products = circuit_permutation_products(
            pk,
            beta,
            gamma,
            &self.advices,
            &self.instance_values,
        );
        self.beta = beta;
        self.gamma = gamma;
        self.stage = Stage::LookupProducts;
        Action::CommitAndInterpolate { polys: Family::LookupProduct.list(self.lookups.len()) }
    }

    fn take_quotient(&mut self, x: F, poly: Vec<F>) -> (action: Action<F, C>)
        requires
            old(self).valid(),
            old(self).stage == Stage::Quotient,
        ensures
            final(self).valid(),
            old(self).takes_quotient(x, poly, *final(self), action),
    {
        proof {
            lemma_pow2_small(self.pk.k as nat);
        }
        self.inputs = evaluation_inputs(self.pk, x, self.products.len());
        self.groups = group_by_poly(&self.inputs);
        self.x = x;
        self.quotient = poly;
        self.stage = Stage::Evaluations;
        Action::Evaluate
    }

    fn take_evaluations(
        &mut self,
        evals: Vec<Vec<F>>,
        permutation: Vec<ProverQuery<F>>,
        lookups: Vec<Vec<ProverQuery<F>>>,
    ) -> (r: Option<Action<F, C>>)
        requires
            old(self).valid(),
            old(self).stage == Stage::Evaluations,
        ensures
            final(self).valid(),
            r is Some == old(self).fits(Event::Evaluations { evals, permutation, lookups }),
            r is None ==> *final(self) == *old(self),
            r matches Some(action) ==> old(self).takes_evaluations(
                evals@,
                permutation@,
                lookups@,
                *final(self),
                action,
            ),
    {
        if !fit_evaluations(&self.groups, &evals) || lookups.len() != self.pk.cs.lookups.len() {
            return None;
        }
        let count: usize = self.inputs.len();
        let all = scatter_evaluations(&self.inputs, &self.groups, &evals);
        let evaluations = tabulate(&self.inputs, &all);
        proof {
            assert(points(self.inputs@).len() == count);
            assert(count > 0);
            assert forall|g: int, j: int|
                0 <= g < self.groups@.len() && 0 <= j
                    < self.groups@[g].points@.len() implies evaluations@[
            #[trigger] self.groups@[g].points@[j].0 as int].2 == evals@[g]@[j] by {
                lemma_place_in_range(self.inputs@, self.groups@, g, j);
            }
        }
        let scalars = skip_first(&all);
        let queries = prover_queries(self.pk, self.x, &permutation, &lookups);
        self.stage = Stage::Done;
        assert(scalars@ =~= Seq::new(
            (self.inputs@.len() - 1) as nat,
            |i: int| evaluations@[i + 1].2,
        ));
        Some(Action::Open { scalars, evaluations, queries })
    }

    /// Takes what came back from the last action.
    fn take(&mut self, event: Event<F, C>) -> (r: Option<Action<F, C>>)
        requires
            old(self).valid(),
        ensures
            final(self).valid(),
            r is Some == old(self).fits(event),
            r is None ==> *final(self) == *old(self),
            r matches Some(action) ==> old(self).leads_to(event, *final(self), action),
    {
        let pk = self.pk;
        match (self.stage, event) {
            (Stage::Instances, Event::Instances { values, polys }) => self.take_instances(
                values,
                polys,
            ),
            (Stage::Advices, Event::Commitments(commitments)) => {
                if commitments.len() != self.advices.len() {
                    return None;
                }
                self.stage = Stage::Theta;
                Some(Action::Absorb { points: commitments, challenges: 1 })
            },
            (Stage::Theta, Event::Challenges(challenges)) => {
                if challenges.len() != 1 {
                    return None;
                }
                Some(self.take_theta(challenges[0]))
            },
            (Stage::SingleLookups, Event::Commitments(commitments)) => {
                let (single, tuple) = commitment_order(pk);
                if commitments.len() != single.len() {
                    return None;
                }
                self.single_commitments = commitments;
                self.stage = Stage::TupleLookups;
                Some(Action::Commit { basis: Basis::Lagrange, polys: tuple })
            },
            (Stage::TupleLookups, Event::Commitments(commitments)) => {
                let (_, tuple) = commitment_order(pk);
                if commitments.len() != tuple.len() {
                    return None;
                }
                self.stage = Stage::BetaGamma;
                Some(
                    Action::Absorb {
                        points: place_commitments(pk, &self.single_commitments, &commitments),
                        challenges: 2,
                    },
                )
            },
            (Stage::BetaGamma, Event::Challenges(challenges)) => {
                if challenges.len() != 2 {
                    return None;
                }
                Some(self.take_beta_gamma(challenges[0], challenges[1]))
            },
            (Stage::LookupProducts, Event::CommittedPolys { commitments, polys }) => {
                let count: usize = self.lookups.len();
                if commitments.len() != count || polys.len() != count {
                    return None;
                }
                replace_products(&mut self.lookups, polys);
                self.lookup_commitments = commitments;
                self.stage = Stage::PermutedColumns;
                Some(Action::Interpolate { polys: list_permuted_columns(count) })
            },
            (Stage::PermutedColumns, Event::Polys(polys)) => {
                if polys.len() != 2 * self.lookups.len() {
                    return None;
                }
                replace_permuted(&mut self.lookups, polys);
                self.stage = Stage::PermutationProducts;
                Some(
                    Action::CommitAndInterpolate {
                        polys: Family::PermutationProduct.list(self.products.len()),
                    },
                )
            },
            (Stage::PermutationProducts, Event::CommittedPolys { commitments, polys }) => {
                let count: usize = self.products.len();
                if commitments.len() != count || polys.len() != count {
                    return None;
                }
                let mut all: Vec<C> = Vec::new();
                push_all(&commitments, &mut all);
                push_all(&self.lookup_commitments, &mut all);
                assert(all@ =~= commitments@ + self.lookup_commitments@);
                self.products = polys;
                self.stage = Stage::WrittenProducts;
                Some(Action::Absorb { points: all, challenges: 0 })
            },
            (Stage::WrittenProducts, Event::Challenges(challenges)) => {
                if challenges.len() != 0 {
                    return None;
                }
                proof {
                    lemma_pow2_small(pk.k as nat);
                }
                self.random = repeat(F::zero(), pk.size());
                assert(values(self.random@) =~= zeros(pk.spec_size()));
                self.stage = Stage::Random;
                let mut wanted: Vec<PolyId> = Vec::new();
                wanted.push(PolyId::Random);
                Some(Action::Commit { basis: Basis::Monomial, polys: wanted })
            },
            (Stage::Random, Event::Commitments(commitments)) => {
                if commitments.len() != 1 {
                    return None;
                }
                self.stage = Stage::Y;
                Some(Action::Absorb { points: commitments, challenges: 1 })
            },
            (Stage::Y, Event::Challenges(challenges)) => {
                if challenges.len() != 1 {
                    return None;
                }
                self.y = challenges[0];
                self.stage = Stage::AdvicePolys;
                Some(Action::Interpolate { polys: Family::Advice.list(self.advices.len()) })
            },
            (Stage::AdvicePolys, Event::Polys(polys)) => {
                if polys.len() != self.advices.len() {
                    return None;
                }
                self.advices = polys;
                self.stage = Stage::Quotient;
                Some(
                    Action::DivideByVanishing {
                        theta: self.theta,
                        beta: self.beta,
                        gamma: self.gamma,
                        y: self.y,
                    },
                )
            },
            (Stage::Quotient, Event::Quotient { x, poly }) => Some(self.take_quotient(x, poly)),
            (
                Stage::Evaluations,
                Event::Evaluations { evals, permutation, lookups },
            ) => self.take_evaluations(evals, permutation, lookups),
            _ => None,
        }
    }
}

/// The points that an action writes to the transcript.
pub open spec fn absorbed<F, C>(action: Action<F, C>) -> Seq<C> {
    match action {
        Action::Absorb { points, .. } => points@,
        _ => Seq::empty(),
    }
}

/// The points that the first `n` actions write to the transcript, in order.
pub open spec fn written<F, C>(actions: Seq<Action<F, C>>, n: int) -> Seq<C>
    decreases n,
{
    if n <= 0 {
        Seq::empty()
    } else {
        written(actions, n - 1) + absorbed(actions[n - 1])
    }
}

/// The commitments that an event brings.
pub open spec fn brought<F, C>(event: Event<F, C>) -> Seq<C> {
    match event {
        Event::Commitments(commitments) => commitments@,
        Event::CommittedPolys { commitments, .. } => commitments@,
        _ => Seq::empty(),
    }
}

/// The states are those of a proof from its start on: each event fits, and leads to the next state
/// and the next action.
pub open spec fn is_run<'a, F: PrimeField, C: Copy>(
    states: Seq<ProverState<'a, F, C>>,
    events: Seq<Event<F, C>>,
    actions: Seq<Action<F, C>>,
) -> bool {
    &&& states.len() == events.len() + 1
    &&& actions.len() == events.len()
    &&& states[0].stage == Stage::Instances
    &&& forall|i: int|
        0 <= i < events.len() ==> states[i].fits(#[trigger] events[i]) && states[i].leads_to(
            events[i],
            states[i + 1],
            actions[i],
        )
}

/// Law of the course: every event that fits takes a proof one stage further, with the same key, and
/// after the last stage no event fits.
pub proof fn lemma_course<'a, F: PrimeField, C: Copy>(
    states: Seq<ProverState<'a, F, C>>,
    events: Seq<Event<F, C>>,
    actions: Seq<Action<F, C>>,
    i: int,
)
    requires
        is_run(states, events, actions),
        0 <= i <= events.len(),
    ensures
        states[i].stage.place() == i,
        states[i].pk == states[0].pk,
        i <= 15,
        i == 15 ==> states[i].stage == Stage::Done,
    decreases i,
{
    if i > 0 {
        lemma_course(states, events, actions, i - 1);
        assert(states[i - 1].fits(events[i - 1]));
    }
}

/// What one event of a run writes, and which commitments it leaves for later.
proof fn lemma_run_step<'a, F: PrimeField, C: Copy>(
    states: Seq<ProverState<'a, F, C>>,
    events: Seq<Event<F, C>>,
    actions: Seq<Action<F, C>>,
    i: int,
)
    requires
        is_run(states, events, actions),
        0 <= i < events.len(),
    ensures
        ({
            let (now, next) = (states[i], states[i + 1]);
            let points = brought(events[i]);
            &&& absorbed(actions[i]) == if i == 1 {
                points
            } else if i == 4 {
                placed(states[0].pk.cs.lookups@, now.single_commitments@, points)
            } else if i == 8 {
                points + now.lookup_commitments@
            } else if i == 10 {
                points
            } else {
                Seq::empty()
            }
            &&& next.single_commitments@ == if i == 3 {
                points
            } else {
                now.single_commitments@
            }
            &&& next.lookup_commitments@ == if i == 6 {
                points
            } else {
                now.lookup_commitments@
            }
        }),
{
    lemma_course(states, events, actions, i);
    assert(states[i].fits(events[i]));
}

/// Law of the transcript: a complete proof writes the commitments to the advice columns, then
/// those to the permuted columns in the order of the lookups, then those to the products of the
/// permutation argument, those to the products of the lookups, and that to the blinding
/// polynomial.
pub proof fn lemma_transcript<'a, F: PrimeField, C: Copy>(
    states: Seq<ProverState<'a, F, C>>,
    events: Seq<Event<F, C>>,
    actions: Seq<Action<F, C>>,
)
    requires
        is_run(states, events, actions),
        events.len() == 15,
    ensures
        written(actions, 15) == brought(events[1]) + placed(
            states[0].pk.cs.lookups@,
            brought(events[3]),
            brought(events[4]),
        ) + brought(events[8]) + brought(events[6]) + brought(events[10]),
{
    lemma_run_step(states, events, actions, 0);
    lemma_run_step(states, events, actions, 1);
    lemma_run_step(states, events, actions, 2);
    lemma_run_step(states, events, actions, 3);
    lemma_run_step(states, events, actions, 4);
    lemma_run_step(states, events, actions, 5);
    lemma_run_step(states, events, actions, 6);
    lemma_run_step(states, events, actions, 7);
    lemma_run_step(states, events, actions, 8);
    lemma_run_step(states, events, actions, 9);
    lemma_run_step(states, events, actions, 10);
    lemma_run_step(states, events, actions, 11);
    lemma_run_step(states, events, actions, 12);
    lemma_run_step(states, events, actions, 13);
    lemma_run_step(states, events, actions, 14);
    reveal_with_fuel(written, 16);
    assert(written(actions, 15) =~= brought(events[1]) + placed(
        states[0].pk.cs.lookups@,
        brought(events[3]),
        brought(events[4]),
    ) + brought(events[8]) + brought(events[6]) + brought(events[10]));
}

/// A proof in the making. Its state is always valid.
#[derive(Debug)]
pub struct Prover<'a, F: PrimeField, C: Copy> {
    state: ProverState<'a, F, C>,
}

impl<'a, F: PrimeField, C: Copy> View for Prover<'a, F, C> {
    type V = ProverState<'a, F, C>;

    closed spec fn view(&self) -> ProverState<'a, F, C> {
        self.state
    }
}

impl<'a, F: PrimeField, C: Copy> Prover<'a, F, C> {
    #[verifier::type_invariant]
    spec fn state_is_valid(self) -> bool {
        self.state.valid()
    }

    /// All that the proof holds.
    pub fn state(&self) -> (r: &ProverState<'a, F, C>)
        ensures
            *r == self@,
            r.valid(),
    {
        proof {
            use_type_invariant(self);
        }
        &self.state
    }

    /// Takes what came back from the last action, and says what is to be done next. An event that
    /// does not fit changes nothing.
    pub fn step(self, event: Event<F, C>) -> (r: (Prover<'a, F, C>, Option<Action<F, C>>))
        ensures
            r.0@.valid(),
            r.1 is Some == self@.fits(event),
            r.1 is None ==> r.0@ == self@,
            r.1 matches Some(action) ==> self@.leads_to(event, r.0@, action),
            r.0@.stage.place() == self@.stage.place() + if r.1 is Some {
                1int
            } else {
                0
            },
    {
        proof {
            use_type_invariant(&self);
        }
        let mut state = self.state;
        let action = state.take(event);
        (Prover { state }, action)
    }
}

/// Starts a proof for the given advice columns.
pub fn create_proof_from_advices<'a, F: PrimeField, C: Copy>(
    pk: &'a ProvingKey<F>,
    advices: Vec<Vec<F>>,
) -> (r: (Prover<'a, F, C>, Action<F, C>))
    requires
        pk.valid(),
        advices@.len() >= pk.cs.num_advice_columns,
        have_rows(advices@, pk.spec_size()),
    ensures
        r.0@.valid(),
        r.0@.is_initial(pk, advices),
        r.1 == Action::<F, C>::LoadInstances,
{
    let zero = F::zero();
    let state = ProverState {
        pk,
        stage: Stage::Instances,
        advices,
        instance_values: Vec::new(),
        instance_polys: Vec::new(),
        lookups: Vec::new(),
        products: Vec::new(),
        random: Vec::new(),
        quotient: Vec::new(),
        theta: zero,
        beta: zero,
        gamma: zero,
        y: zero,
        x: zero,
        single_commitments: Vec::new(),
        lookup_commitments: Vec::new(),
        inputs: Vec::new(),
        groups: Vec::new(),
    };
    (Prover { state }, Action::LoadInstances)
}

} // verus!
