//! What a proof does at each stage, spelled out: the laws that hold of every step of
//! [`crate::prover::Prover`].
use crate::circuit::ProvingKey;
use crate::commitments::{lemma_permuted_ids, placed, single_ids, tuple_ids};
use crate::field::PrimeField;
use crate::lookup_columns::{circuit_cells, LookupColumns};
use crate::opening::{
    asked, evaluation_points, evaluations_fit, grouped, lemma_grouped_only, opening_queries, points,
    PolyId,
};
use crate::permutation::is_product;
use crate::products::circuit_argument;
use crate::prover::{Action, Basis, Event, ProverState, Stage};
use vstd::arithmetic::power2::pow2;
use vstd::prelude::*;

verus! {

impl<'a, F: PrimeField, C: Copy> ProverState<'a, F, C> {
    /// Law of the start: a proof waits for the instances, holds the key and the advice columns as
    /// they were given, and nothing else.
    pub proof fn lemma_start(self, pk: &'a ProvingKey<F>, advices: Vec<Vec<F>>)
        requires
            self.is_initial(pk, advices),
        ensures
            self.pk == pk,
            self.stage == Stage::Instances,
            self.advices == advices,
            self.instance_values@ == Seq::<Vec<F>>::empty(),
            self.instance_polys@ == Seq::<Vec<F>>::empty(),
            self.lookups@ == Seq::<LookupColumns<F>>::empty(),
            self.products@ == Seq::<Vec<F>>::empty(),
            self.random@ == Seq::<F>::empty(),
            self.quotient@ == Seq::<F>::empty(),
            self.single_commitments@ == Seq::<C>::empty(),
            self.lookup_commitments@ == Seq::<C>::empty(),
            self.inputs@ == Seq::<(PolyId, F)>::empty(),
            self.groups@.len() == 0,
            self.theta.value() == 0 && self.beta.value() == 0 && self.gamma.value() == 0,
            self.y.value() == 0 && self.x.value() == 0,
    {
    }

    /// Law of the names: a name stands for the column with its index, if there is one. Fixed
    /// columns and permutation polynomials are those of the key.
    pub proof fn lemma_named(self, id: PolyId)
        ensures
            ({
                let r = self.spec_poly(id);
                match id {
                    PolyId::Instance(i) => {
                        &&& i < self.instance_polys@.len() ==> r == Some(
                            self.instance_polys@[i as int],
                        )
                        &&& i >= self.instance_polys@.len() ==> r is None
                    },
                    PolyId::Advice(i) => {
                        &&& i < self.advices@.len() ==> r == Some(self.advices@[i as int])
                        &&& i >= self.advices@.len() ==> r is None
                    },
                    PolyId::Fixed(i) => {
                        &&& i < self.pk.fixed_polys@.len() ==> r == Some(
                            self.pk.fixed_polys@[i as int],
                        )
                        &&& i >= self.pk.fixed_polys@.len() ==> r is None
                    },
                    PolyId::Permutation(i) => {
                        &&& i < self.pk.permutation_polys@.len() ==> r == Some(
                            self.pk.permutation_polys@[i as int],
                        )
                        &&& i >= self.pk.permutation_polys@.len() ==> r is None
                    },
                    PolyId::PermutationProduct(i) => {
                        &&& i < self.products@.len() ==> r == Some(self.products@[i as int])
                        &&& i >= self.products@.len() ==> r is None
                    },
                    PolyId::PermutedInput(i) => {
                        &&& i < self.lookups@.len() ==> r == Some(
                            self.lookups@[i as int].permuted_input,
                        )
                        &&& i >= self.lookups@.len() ==> r is None
                    },
                    PolyId::PermutedTable(i) => {
                        &&& i < self.lookups@.len() ==> r == Some(
                            self.lookups@[i as int].permuted_table,
                        )
                        &&& i >= self.lookups@.len() ==> r is None
                    },
                    PolyId::LookupProduct(i) => {
                        &&& i < self.lookups@.len() ==> r == Some(self.lookups@[i as int].product)
                        &&& i >= self.lookups@.len() ==> r is None
                    },
                    PolyId::Quotient => r == Some(self.quotient),
                    PolyId::Random => r == Some(self.random),
                }
            }),
    {
    }

    /// Law of the answers: an answer fits if it is of the kind that was asked for and brings as
    /// many items as there are columns, challenges or points; instance columns must have all rows.
    pub proof fn lemma_fits(self, event: Event<F, C>)
        ensures
            self.fits(event) == match self.stage {
                Stage::Instances => event matches Event::Instances { values, polys }
                    && values@.len() == self.pk.cs.num_instance_columns && polys@.len()
                    == self.pk.cs.num_instance_columns && (forall|i: int|
                    0 <= i < values@.len() ==> (#[trigger] values@[i])@.len() == pow2(
                        self.pk.k as nat,
                    )),
                Stage::Advices => event matches Event::Commitments(c) && c@.len()
                    == self.advices@.len(),
                Stage::Theta => event matches Event::Challenges(c) && c@.len() == 1,
                Stage::SingleLookups => event matches Event::Commitments(c) && c@.len()
                    == single_ids(self.pk.cs.lookups@).len(),
                Stage::TupleLookups => event matches Event::Commitments(c) && c@.len()
                    == tuple_ids(self.pk.cs.lookups@).len(),
                Stage::BetaGamma => event matches Event::Challenges(c) && c@.len() == 2,
                Stage::LookupProducts => event matches Event::CommittedPolys { commitments, polys }
                    && commitments@.len() == self.pk.cs.lookups@.len() && polys@.len()
                    == self.pk.cs.lookups@.len(),
                Stage::PermutedColumns => event matches Event::Polys(polys) && polys@.len() == 2
                    * self.pk.cs.lookups@.len(),
                Stage::PermutationProducts => event matches Event::CommittedPolys {
                    commitments,
                    polys,
                } && commitments@.len() == self.products@.len() && polys@.len()
                    == self.products@.len(),
                Stage::WrittenProducts => event matches Event::Challenges(c) && c@.len() == 0,
                Stage::Random => event matches Event::Commitments(c) && c@.len() == 1,
                Stage::Y => event matches Event::Challenges(c) && c@.len() == 1,
                Stage::AdvicePolys => event matches Event::Polys(polys) && polys@.len()
                    == self.advices@.len(),
                Stage::Quotient => event is Quotient,
                Stage::Evaluations => event matches Event::Evaluations { evals, lookups, .. }
                    && lookups@.len() == self.pk.cs.lookups@.len() && evaluations_fit(
                    self.groups@,
                    evals@,
                ),
                Stage::Done => false,
            },
    {
    }

    /// Law of the instances: once they are there, every advice column is committed to once, in
    /// order.
    pub proof fn lemma_after_instances(
        self,
        event: Event<F, C>,
        next: Self,
        action: Action<F, C>,
    )
        requires
            self.stage == Stage::Instances,
            self.leads_to(event, next, action),
        ensures
            event matches Event::Instances { values, polys } && next == (ProverState {
                stage: Stage::Advices,
                instance_values: values,
                instance_polys: polys,
                ..self
            }),
            action matches Action::Commit { basis, polys } && basis == Basis::Lagrange
                && polys@.len() == self.advices@.len() && polys@.no_duplicates() && (forall|i: int|
                0 <= i < self.advices@.len() ==> #[trigger] polys@[i] == PolyId::Advice(i as usize)
                    && next.spec_poly(polys@[i]) == Some(self.advices@[i])),
    {
        assert(self.advices.len() == self.advices@.len());
    }

    /// Law of the advice commitments: they are written as they came, and one challenge is squeezed.
    pub proof fn lemma_after_advices(self, event: Event<F, C>, next: Self, action: Action<F, C>)
        requires
            self.stage == Stage::Advices,
            self.leads_to(event, next, action),
        ensures
            next == (ProverState { stage: Stage::Theta, ..self }),
            action matches Action::Absorb { points, challenges } && challenges == 1 && (
            event matches Event::Commitments(c) && points@ == c@),
    {
    }

    /// Law of `theta`: every lookup is built with it, and the permuted columns that did not have to
    /// wait for it are committed to.
    pub proof fn lemma_after_theta(self, event: Event<F, C>, next: Self, action: Action<F, C>)
        requires
            self.stage == Stage::Theta,
            self.leads_to(event, next, action),
        ensures
            event matches Event::Challenges(c) && next == (ProverState {
                stage: Stage::SingleLookups,
                theta: c@[0],
                lookups: next.lookups,
                ..self
            }) && (forall|i: int|
                0 <= i < self.pk.cs.lookups@.len() ==> (#[trigger] next.lookups@[i]).is_built(
                    *self.pk,
                    c@[0].value(),
                    circuit_cells(*self.pk, self.advices@, self.instance_values@),
                    i,
                )),
            next.lookups@.len() == self.pk.cs.lookups@.len(),
            action matches Action::Commit { basis, polys } && basis == Basis::Lagrange && polys@
                == single_ids(self.pk.cs.lookups@),
    {
    }

    /// Law of the lookups with single expressions: their commitments are kept, and the other
    /// permuted columns are committed to.
    pub proof fn lemma_after_single_lookups(
        self,
        event: Event<F, C>,
        next: Self,
        action: Action<F, C>,
    )
        requires
            self.stage == Stage::SingleLookups,
            self.leads_to(event, next, action),
        ensures
            event matches Event::Commitments(c) && next == (ProverState {
                stage: Stage::TupleLookups,
                single_commitments: c,
                ..self
            }),
            action matches Action::Commit { basis, polys } && basis == Basis::Lagrange && polys@
                == tuple_ids(self.pk.cs.lookups@),
    {
    }

    /// Law of the other lookups: all commitments to permuted columns are written, in the order of
    /// the lookups, and two challenges are squeezed.
    pub proof fn lemma_after_tuple_lookups(
        self,
        event: Event<F, C>,
        next: Self,
        action: Action<F, C>,
    )
        requires
            self.stage == Stage::TupleLookups,
            self.leads_to(event, next, action),
        ensures
            next == (ProverState { stage: Stage::BetaGamma, ..self }),
            action matches Action::Absorb { points, challenges } && challenges == 2 && (
            event matches Event::Commitments(c) && points@ == placed(
                self.pk.cs.lookups@,
                self.single_commitments@,
                c@,
            )),
    {
    }

    /// Law of `beta` and `gamma`: the first challenge is `beta`, the second `gamma`; the products
    /// are made of them, and that of every lookup is committed to once, in order.
    pub proof fn lemma_after_beta_gamma(
        self,
        event: Event<F, C>,
        next: Self,
        action: Action<F, C>,
    )
        requires
            self.stage == Stage::BetaGamma,
            self.leads_to(event, next, action),
        ensures
            event matches Event::Challenges(c) && next == (ProverState {
                stage: Stage::LookupProducts,
                beta: c@[0],
                gamma: c@[1],
                lookups: next.lookups,
                products: next.products,
                ..self
            }) && (forall|i: int|
                0 <= i < self.lookups@.len() ==> self.lookups@[i].filled(
                    c@[0],
                    c@[1],
                    pow2(self.pk.k as nat) - (self.pk.cs.blinding_factors + 1),
                    #[trigger] next.lookups@[i],
                )) && is_product(
                circuit_argument(
                    *self.pk,
                    c@[0],
                    c@[1],
                    circuit_cells(*self.pk, self.advices@, self.instance_values@),
                ),
                self.pk.cs.degree - 2,
                pow2(self.pk.k as nat) - (self.pk.cs.blinding_factors + 1),
                next.products@,
            ),
            next.lookups@.len() == self.lookups@.len(),
            action matches Action::CommitAndInterpolate { polys } && polys@.len()
                == self.lookups@.len() && polys@.no_duplicates() && (forall|i: int|
                0 <= i < self.lookups@.len() ==> #[trigger] polys@[i] == PolyId::LookupProduct(
                    i as usize,
                ) && next.spec_poly(polys@[i]) == Some(next.lookups@[i].product)),
    {
        assert(self.lookups.len() == self.lookups@.len());
    }

    /// Law of the lookup products: their coefficients take their place, lookup by lookup, their
    /// commitments are kept, and every permuted column is interpolated once, in order.
    pub proof fn lemma_after_lookup_products(
        self,
        event: Event<F, C>,
        next: Self,
        action: Action<F, C>,
    )
        requires
            self.stage == Stage::LookupProducts,
            self.leads_to(event, next, action),
        ensures
            event matches Event::CommittedPolys { commitments, polys } && next == (ProverState {
                stage: Stage::PermutedColumns,
                lookups: next.lookups,
                lookup_commitments: commitments,
                ..self
            }) && (forall|i: int|
                0 <= i < self.lookups@.len() ==> #[trigger] next.lookups@[i] == (LookupColumns {
                    product: polys@[i],
                    ..self.lookups@[i]
                })),
            next.lookups@.len() == self.lookups@.len(),
            action matches Action::Interpolate { polys } && polys@.len() == 2 * self.lookups@.len()
                && (forall|i: int|
                #![trigger self.lookups@[i]]
                0 <= i < self.lookups@.len() ==> polys@[2 * i] == PolyId::PermutedInput(i as usize)
                    && polys@[2 * i + 1] == PolyId::PermutedTable(i as usize)),
    {
        assert forall|i: int|
            #![trigger self.lookups@[i]]
            0 <= i < self.lookups@.len() implies action->Interpolate_polys@[2 * i]
            == PolyId::PermutedInput(i as usize) && action->Interpolate_polys@[2 * i + 1]
            == PolyId::PermutedTable(i as usize) by {
            lemma_permuted_ids(self.lookups@.len(), i);
        }
        lemma_permuted_ids(self.lookups@.len(), 0);
    }

    /// Law of the permuted columns: their coefficients take their place, the input of a lookup
    /// before its table, and every permutation product is committed to once, in order.
    pub proof fn lemma_after_permuted_columns(
        self,
        event: Event<F, C>,
        next: Self,
        action: Action<F, C>,
    )
        requires
            self.stage == Stage::PermutedColumns,
            self.leads_to(event, next, action),
        ensures
            event matches Event::Polys(polys) && next == (ProverState {
                stage: Stage::PermutationProducts,
                lookups: next.lookups,
                ..self
            }) && (forall|i: int|
                0 <= i < self.lookups@.len() ==> #[trigger] next.lookups@[i] == (LookupColumns {
                    permuted_input: polys@[2 * i],
                    permuted_table: polys@[2 * i + 1],
                    ..self.lookups@[i]
                })),
            next.lookups@.len() == self.lookups@.len(),
            action matches Action::CommitAndInterpolate { polys } && polys@.len()
                == self.products@.len() && polys@.no_duplicates() && (forall|i: int|
                0 <= i < self.products@.len() ==> #[trigger] polys@[i]
                    == PolyId::PermutationProduct(i as usize) && next.spec_poly(polys@[i]) == Some(
                    self.products@[i],
                )),
    {
        assert(self.products.len() == self.products@.len());
    }

    /// Law of the permutation products: their coefficients take their place, and the commitments
    /// to them and then those to the lookup products are written.
    pub proof fn lemma_after_permutation_products(
        self,
        event: Event<F, C>,
        next: Self,
        action: Action<F, C>,
    )
        requires
            self.stage == Stage::PermutationProducts,
            self.leads_to(event, next, action),
        ensures
            event matches Event::CommittedPolys { commitments, polys } && next == (ProverState {
                stage: Stage::WrittenProducts,
                products: polys,
                ..self
            }) && (action matches Action::Absorb { points, challenges } && challenges == 0
                && points@ == commitments@ + self.lookup_commitments@),
    {
    }

    /// Law of the blinding polynomial: it has as many coefficients as there are rows, all zero, and
    /// is committed to by its coefficients.
    pub proof fn lemma_after_written_products(
        self,
        event: Event<F, C>,
        next: Self,
        action: Action<F, C>,
    )
        requires
            self.stage == Stage::WrittenProducts,
            self.leads_to(event, next, action),
        ensures
            next == (ProverState { stage: Stage::Random, random: next.random, ..self }),
            next.random@.len() == pow2(self.pk.k as nat),
            forall|i: int|
                0 <= i < next.random@.len() ==> (#[trigger] next.random@[i]).value() == 0,
            action matches Action::Commit { basis, polys } && basis == Basis::Monomial && polys@
                == seq![PolyId::Random],
    {
        let v = crate::field::values(next.random@);
        assert(v.len() == next.random@.len());
        assert forall|i: int| 0 <= i < next.random@.len() implies (
        #[trigger] next.random@[i]).value() == 0 by {
            assert(v[i] == next.random@[i].value());
        }
    }

    /// Law of the blinding commitment: it is written, and one challenge is squeezed.
    pub proof fn lemma_after_random(self, event: Event<F, C>, next: Self, action: Action<F, C>)
        requires
            self.stage == Stage::Random,
            self.leads_to(event, next, action),
        ensures
            next == (ProverState { stage: Stage::Y, ..self }),
            action matches Action::Absorb { points, challenges } && challenges == 1 && (
            event matches Event::Commitments(c) && points@ == c@),
    {
    }

    /// Law of `y`: every advice column is interpolated once, in order.
    pub proof fn lemma_after_y(self, event: Event<F, C>, next: Self, action: Action<F, C>)
        requires
            self.stage == Stage::Y,
            self.leads_to(event, next, action),
        ensures
            event matches Event::Challenges(c) && next == (ProverState {
                stage: Stage::AdvicePolys,
                y: c@[0],
                ..self
            }),
            action matches Action::Interpolate { polys } && polys@.len() == self.advices@.len()
                && polys@.no_duplicates() && (forall|i: int|
                0 <= i < self.advices@.len() ==> #[trigger] polys@[i] == PolyId::Advice(i as usize)
                    && next.spec_poly(polys@[i]) == Some(self.advices@[i])),
    {
        assert(self.advices.len() == self.advices@.len());
    }

    /// Law of the advice polynomials: they take the place of the columns, and the quotient is made
    /// with all challenges.
    pub proof fn lemma_after_advice_polys(
        self,
        event: Event<F, C>,
        next: Self,
        action: Action<F, C>,
    )
        requires
            self.stage == Stage::AdvicePolys,
            self.leads_to(event, next, action),
        ensures
            event matches Event::Polys(polys) && next == (ProverState {
                stage: Stage::Quotient,
                advices: polys,
                ..self
            }),
            action matches Action::DivideByVanishing { theta, beta, gamma, y } && theta
                == self.theta && beta == self.beta && gamma == self.gamma && y == self.y,
    {
    }

    /// Law of the quotient: it is kept with the point, and all evaluations are asked for, gathered
    /// by polynomial.
    pub proof fn lemma_after_quotient(self, event: Event<F, C>, next: Self, action: Action<F, C>)
        requires
            self.stage == Stage::Quotient,
            self.leads_to(event, next, action),
        ensures
            event matches Event::Quotient { x, poly } && next == (ProverState {
                stage: Stage::Evaluations,
                x,
                quotient: poly,
                inputs: next.inputs,
                groups: next.groups,
                ..self
            }) && points(next.inputs@) == evaluation_points(
                *self.pk,
                x.value(),
                self.products@.len() as int,
            ),
            grouped(next.inputs@, next.groups@, next.inputs@.len() as int),
            action is Evaluate,
    {
    }

    /// Law of the evaluations: each goes to the place of its input, with its polynomial and its
    /// point; all but the one in the first place are written, in the order of the inputs; and all
    /// queries are opened.
    pub proof fn lemma_after_evaluations(
        self,
        event: Event<F, C>,
        next: Self,
        action: Action<F, C>,
        g: int,
        j: int,
    )
        requires
            self.valid(),
            self.stage == Stage::Evaluations,
            self.leads_to(event, next, action),
            0 <= g < self.groups@.len(),
            0 <= j < self.groups@[g].points@.len(),
        ensures
            next == (ProverState { stage: Stage::Done, ..self }),
            event matches Event::Evaluations { evals, permutation, lookups } && (
            action matches Action::Open { scalars, evaluations, queries } && {
                let (place, x) = self.groups@[g].points@[j];
                &&& evaluations@.len() == self.inputs@.len()
                &&& scalars@.len() == self.inputs@.len() - 1
                &&& evaluations@[place as int] == (self.groups@[g].poly, x, evals@[g]@[j])
                &&& place > 0 ==> scalars@[place - 1] == evals@[g]@[j]
                &&& asked(queries@) == opening_queries(
                    *self.pk,
                    self.x.value(),
                    permutation@,
                    lookups@,
                )
            }),
    {
        assert(self.inputs.len() == self.inputs@.len());
        lemma_grouped_only(self.inputs@, self.groups@, g, j, g);
        let place = self.groups@[g].points@[j].0 as int;
        let table = action->evaluations@;
        assert(table[place].0 == self.inputs@[place].0);
        assert(table[self.groups@[g].points@[j].0 as int].2
            == event->Evaluations_evals@[g]@[j]);
    }
}

} // verus!
