//! Two proofs of the same columns, answered alike, are alike.
//!
//! Elements are compared by their values: two columns that hold the same residues are the same to
//! a proof, however the residues are written down.
use crate::circuit::ProvingKey;
use crate::field::{columns, values, PrimeField};
use crate::lookup_columns::{circuit_cells, LookupColumns};
use crate::opening::{
    asked, concatenated, distinct_polys, evaluations_fit, grouped, lemma_grouped_covers, points,
    points_of, EvaluationGroup, PolyId, ProverQuery,
};
use crate::permutation::{is_product, Argument};
use crate::products::circuit_argument;
use crate::prover::{absorbed, is_run, written, Action, Event, ProverState, Stage};
use vstd::prelude::*;

verus! {

impl<F: PrimeField> LookupColumns<F> {
    /// The columns hold the same values.
    pub open spec fn alike(self, other: Self) -> bool {
        &&& values(self.permuted_input@) == values(other.permuted_input@)
        &&& values(self.permuted_table@) == values(other.permuted_table@)
        &&& values(self.input@) == values(other.input@)
        &&& values(self.table@) == values(other.table@)
        &&& values(self.product@) == values(other.product@)
    }
}

/// The lookups hold the same values.
pub open spec fn lookups_alike<F: PrimeField>(
    s: Seq<LookupColumns<F>>,
    t: Seq<LookupColumns<F>>,
) -> bool {
    &&& s.len() == t.len()
    &&& forall|i: int| 0 <= i < s.len() ==> (#[trigger] s[i]).alike(t[i])
}

/// Places with points, as values.
pub open spec fn places<F: PrimeField>(s: Seq<(usize, F)>) -> Seq<(usize, nat)> {
    s.map_values(|x: (usize, F)| (x.0, x.1.value()))
}

/// The groups hold the same points of the same polynomials.
pub open spec fn groups_alike<F: PrimeField>(
    s: Seq<EvaluationGroup<F>>,
    t: Seq<EvaluationGroup<F>>,
) -> bool {
    &&& s.len() == t.len()
    &&& forall|g: int|
        0 <= g < s.len() ==> (#[trigger] s[g]).poly == t[g].poly && places(s[g].points@) == places(
            t[g].points@,
        )
}

/// Evaluations with their polynomials and points, as values.
pub open spec fn table<F: PrimeField>(s: Seq<(PolyId, F, F)>) -> Seq<(PolyId, nat, nat)> {
    s.map_values(|x: (PolyId, F, F)| (x.0, x.1.value(), x.2.value()))
}

/// The queries of several lookups ask for the same.
pub open spec fn asked_alike<F: PrimeField>(
    s: Seq<Vec<ProverQuery<F>>>,
    t: Seq<Vec<ProverQuery<F>>>,
) -> bool {
    &&& s.len() == t.len()
    &&& forall|i: int| 0 <= i < s.len() ==> asked((#[trigger] s[i])@) == asked(t[i]@)
}

/// Both columns are missing, or they hold the same values.
pub open spec fn polys_alike<F: PrimeField>(s: Option<Vec<F>>, t: Option<Vec<F>>) -> bool {
    match (s, t) {
        (Some(a), Some(b)) => values(a@) == values(b@),
        (None, None) => true,
        _ => false,
    }
}

impl<'a, F: PrimeField, C: Copy> ProverState<'a, F, C> {
    /// The states hold the same values.
    pub open spec fn alike(self, other: Self) -> bool {
        &&& self.pk == other.pk
        &&& self.stage == other.stage
        &&& columns(self.advices@) == columns(other.advices@)
        &&& columns(self.instance_values@) == columns(other.instance_values@)
        &&& columns(self.instance_polys@) == columns(other.instance_polys@)
        &&& lookups_alike(self.lookups@, other.lookups@)
        &&& columns(self.products@) == columns(other.products@)
        &&& values(self.random@) == values(other.random@)
        &&& values(self.quotient@) == values(other.quotient@)
        &&& self.theta.value() == other.theta.value()
        &&& self.beta.value() == other.beta.value()
        &&& self.gamma.value() == other.gamma.value()
        &&& self.y.value() == other.y.value()
        &&& self.x.value() == other.x.value()
        &&& self.single_commitments@ == other.single_commitments@
        &&& self.lookup_commitments@ == other.lookup_commitments@
        &&& points(self.inputs@) == points(other.inputs@)
        &&& groups_alike(self.groups@, other.groups@)
    }

    /// States that hold the same values hold the same columns under every name.
    pub proof fn lemma_alike_polys(self, other: Self, id: PolyId)
        requires
            self.alike(other),
        ensures
            polys_alike(self.spec_poly(id), other.spec_poly(id)),
    {
        assert(columns(self.advices@).len() == self.advices@.len());
        assert(columns(other.advices@).len() == other.advices@.len());
        assert(columns(self.instance_polys@).len() == self.instance_polys@.len());
        assert(columns(other.instance_polys@).len() == other.instance_polys@.len());
        assert(columns(self.products@).len() == self.products@.len());
        assert(columns(other.products@).len() == other.products@.len());
        match id {
            PolyId::Instance(i) => {
                if i < self.instance_polys@.len() {
                    lemma_column_alike(self.instance_polys@, other.instance_polys@, i as int);
                }
            },
            PolyId::Advice(i) => {
                if i < self.advices@.len() {
                    lemma_column_alike(self.advices@, other.advices@, i as int);
                }
            },
            PolyId::PermutationProduct(i) => {
                if i < self.products@.len() {
                    lemma_column_alike(self.products@, other.products@, i as int);
                }
            },
            PolyId::PermutedInput(i) => {
                if i < self.lookups@.len() {
                    assert(self.lookups@[i as int].alike(other.lookups@[i as int]));
                }
            },
            PolyId::PermutedTable(i) => {
                if i < self.lookups@.len() {
                    assert(self.lookups@[i as int].alike(other.lookups@[i as int]));
                }
            },
            PolyId::LookupProduct(i) => {
                if i < self.lookups@.len() {
                    assert(self.lookups@[i as int].alike(other.lookups@[i as int]));
                }
            },
            _ => {},
        }
    }
}

impl<F: PrimeField, C> Event<F, C> {
    /// The events bring the same values.
    pub open spec fn alike(self, other: Self) -> bool {
        match (self, other) {
            (
                Event::Instances { values, polys },
                Event::Instances { values: other_values, polys: other_polys },
            ) => {
                &&& columns(values@) == columns(other_values@)
                &&& columns(polys@) == columns(other_polys@)
            },
            (Event::Commitments(a), Event::Commitments(b)) => a@ == b@,
            (
                Event::CommittedPolys { commitments, polys },
                Event::CommittedPolys { commitments: other_commitments, polys: other_polys },
            ) => {
                &&& commitments@ == other_commitments@
                &&& columns(polys@) == columns(other_polys@)
            },
            (Event::Polys(a), Event::Polys(b)) => columns(a@) == columns(b@),
            (Event::Challenges(a), Event::Challenges(b)) => values(a@) == values(b@),
            (Event::Quotient { x, poly }, Event::Quotient { x: other_x, poly: other_poly }) => {
                &&& x.value() == other_x.value()
                &&& values(poly@) == values(other_poly@)
            },
            (
                Event::Evaluations { evals, permutation, lookups },
                Event::Evaluations {
                    evals: other_evals,
                    permutation: other_permutation,
                    lookups: other_lookups,
                },
            ) => {
                &&& columns(evals@) == columns(other_evals@)
                &&& asked(permutation@) == asked(other_permutation@)
                &&& asked_alike(lookups@, other_lookups@)
            },
            _ => false,
        }
    }
}

impl<F: PrimeField, C> Action<F, C> {
    /// The actions are the same, with the same values.
    pub open spec fn alike(self, other: Self) -> bool {
        match (self, other) {
            (Action::LoadInstances, Action::LoadInstances) => true,
            (
                Action::Commit { basis, polys },
                Action::Commit { basis: other_basis, polys: other_polys },
            ) => basis == other_basis && polys@ == other_polys@,
            (
                Action::CommitAndInterpolate { polys },
                Action::CommitAndInterpolate { polys: other_polys },
            ) => polys@ == other_polys@,
            (Action::Interpolate { polys }, Action::Interpolate { polys: other_polys }) => polys@
                == other_polys@,
            (
                Action::Absorb { points, challenges },
                Action::Absorb { points: other_points, challenges: other_challenges },
            ) => points@ == other_points@ && challenges == other_challenges,
            (
                Action::DivideByVanishing { theta, beta, gamma, y },
                Action::DivideByVanishing {
                    theta: other_theta,
                    beta: other_beta,
                    gamma: other_gamma,
                    y: other_y,
                },
            ) => {
                &&& theta.value() == other_theta.value()
                &&& beta.value() == other_beta.value()
                &&& gamma.value() == other_gamma.value()
                &&& y.value() == other_y.value()
            },
            (Action::Evaluate, Action::Evaluate) => true,
            (
                Action::Open { scalars, evaluations, queries },
                Action::Open {
                    scalars: other_scalars,
                    evaluations: other_evaluations,
                    queries: other_queries,
                },
            ) => {
                &&& values(scalars@) == values(other_scalars@)
                &&& table(evaluations@) == table(other_evaluations@)
                &&& asked(queries@) == asked(other_queries@)
            },
            _ => false,
        }
    }
}

/// Columns that hold the same values do so one by one.
proof fn lemma_column_alike<F: PrimeField>(s: Seq<Vec<F>>, t: Seq<Vec<F>>, i: int)
    requires
        columns(s) == columns(t),
        0 <= i < s.len(),
    ensures
        s.len() == t.len(),
        values(s[i]@) == values(t[i]@),
{
    assert(columns(s).len() == s.len());
    assert(columns(t).len() == t.len());
    assert(columns(s)[i] == values(s[i]@));
    assert(columns(t)[i] == values(t[i]@));
}

/// Elements that have the same values do so one by one.
proof fn lemma_value_alike<F: PrimeField>(s: Seq<F>, t: Seq<F>, i: int)
    requires
        values(s) == values(t),
        0 <= i < s.len(),
    ensures
        s.len() == t.len(),
        s[i].value() == t[i].value(),
{
    assert(values(s).len() == s.len());
    assert(values(t).len() == t.len());
    assert(values(s)[i] == s[i].value());
    assert(values(t)[i] == t[i].value());
}

/// The products of an argument are determined by it.
proof fn lemma_products_alike<F: PrimeField>(
    a: Argument,
    chunk_len: int,
    last: int,
    s: Seq<Vec<F>>,
    t: Seq<Vec<F>>,
)
    requires
        chunk_len > 0,
        is_product(a, chunk_len, last, s),
        is_product(a, chunk_len, last, t),
    ensures
        columns(s) == columns(t),
{
    let (m, n) = (s.len() as int, t.len() as int);
    let k = a.cells.len() as int;
    assert(m == n) by (nonlinear_arith)
        requires
            chunk_len > 0,
            (m - 1) * chunk_len < k <= m * chunk_len,
            (n - 1) * chunk_len < k <= n * chunk_len,
    ;
    assert forall|j: int| 0 <= j < m implies #[trigger] columns(s)[j] == columns(t)[j] by {
        assert(values(s[j]@) == a.product_column(chunk_len, last, j));
        assert(values(t[j]@) == a.product_column(chunk_len, last, j));
    }
    assert(columns(s) =~= columns(t));
}

/// Which polynomials occur, and where, does not depend on how the points are written down.
proof fn lemma_groups_alike<F: PrimeField>(
    s: Seq<(PolyId, F)>,
    t: Seq<(PolyId, F)>,
    gs: Seq<EvaluationGroup<F>>,
    gt: Seq<EvaluationGroup<F>>,
)
    requires
        points(s) == points(t),
        grouped(s, gs, s.len() as int),
        grouped(t, gt, t.len() as int),
    ensures
        groups_alike(gs, gt),
{
    let n = s.len() as int;
    assert(points(s).len() == s.len());
    assert(points(t).len() == t.len());
    lemma_distinct_alike(s, t, n);
    let names_s = gs.map_values(|g: EvaluationGroup<F>| g.poly);
    let names_t = gt.map_values(|g: EvaluationGroup<F>| g.poly);
    assert(names_s.len() == gs.len());
    assert(names_t.len() == gt.len());
    assert forall|g: int| 0 <= g < gs.len() implies (#[trigger] gs[g]).poly == gt[g].poly && places(
        gs[g].points@,
    ) == places(gt[g].points@) by {
        assert(names_s[g] == gs[g].poly);
        assert(names_t[g] == gt[g].poly);
        lemma_points_alike(s, t, gs[g].poly, n);
    }
}

proof fn lemma_distinct_alike<F: PrimeField>(s: Seq<(PolyId, F)>, t: Seq<(PolyId, F)>, n: int)
    requires
        points(s) == points(t),
        n <= s.len(),
    ensures
        distinct_polys(s, n) == distinct_polys(t, n),
    decreases n,
{
    if n > 0 {
        lemma_distinct_alike(s, t, n - 1);
        assert(points(s)[n - 1].0 == s[n - 1].0);
        assert(points(t).len() == t.len());
        assert(points(t)[n - 1].0 == t[n - 1].0);
    }
}

proof fn lemma_points_alike<F: PrimeField>(
    s: Seq<(PolyId, F)>,
    t: Seq<(PolyId, F)>,
    poly: PolyId,
    n: int,
)
    requires
        points(s) == points(t),
        n <= s.len(),
    ensures
        places(points_of(s, poly, n)) == places(points_of(t, poly, n)),
    decreases n,
{
    if n > 0 {
        lemma_points_alike(s, t, poly, n - 1);
        assert(points(t).len() == t.len());
        assert(points(s)[n - 1] == (s[n - 1].0, s[n - 1].1.value()));
        assert(points(t)[n - 1] == (t[n - 1].0, t[n - 1].1.value()));
        let (a, b) = (points_of(s, poly, n - 1), points_of(t, poly, n - 1));
        if s[n - 1].0 == poly {
            let place = (n - 1) as usize;
            assert(places(points_of(s, poly, n)) =~= places(a).push((place, s[n - 1].1.value())));
            assert(places(points_of(t, poly, n)) =~= places(b).push((place, t[n - 1].1.value())));
        }
    } else {
        assert(places(points_of(s, poly, n)) =~= places(points_of(t, poly, n)));
    }
}

impl<'a, F: PrimeField, C: Copy> ProverState<'a, F, C> {
    proof fn lemma_theta_alike(
        self,
        other: Self,
        theta: F,
        other_theta: F,
        next: Self,
        other_next: Self,
        action: Action<F, C>,
        other_action: Action<F, C>,
    )
        requires
            self.alike(other),
            theta.value() == other_theta.value(),
            self.takes_theta(theta, next, action),
            other.takes_theta(other_theta, other_next, other_action),
        ensures
            next.alike(other_next),
            action.alike(other_action),
    {
        let c = circuit_cells(*self.pk, self.advices@, self.instance_values@);
        let d = circuit_cells(*other.pk, other.advices@, other.instance_values@);
        assert(c == d);
        assert forall|i: int| 0 <= i < next.lookups@.len() implies (
        #[trigger] next.lookups@[i]).alike(other_next.lookups@[i]) by {
            assert(next.lookups@[i].is_built(*self.pk, theta.value(), c, i));
            assert(other_next.lookups@[i].is_built(*self.pk, theta.value(), c, i));
        }
    }

    proof fn lemma_beta_gamma_alike(
        self,
        other: Self,
        beta: F,
        gamma: F,
        other_beta: F,
        other_gamma: F,
        next: Self,
        other_next: Self,
        action: Action<F, C>,
        other_action: Action<F, C>,
    )
        requires
            self.pk.valid(),
            self.alike(other),
            beta.value() == other_beta.value(),
            gamma.value() == other_gamma.value(),
            self.takes_beta_gamma(beta, gamma, next, action),
            other.takes_beta_gamma(other_beta, other_gamma, other_next, other_action),
        ensures
            next.alike(other_next),
            action.alike(other_action),
    {
        let c = circuit_cells(*self.pk, self.advices@, self.instance_values@);
        let d = circuit_cells(*other.pk, other.advices@, other.instance_values@);
        assert(c == d);
        let last = self.pk.spec_unusable_rows_start();
        assert forall|i: int| 0 <= i < next.lookups@.len() implies (
        #[trigger] next.lookups@[i]).alike(other_next.lookups@[i]) by {
            assert(self.lookups@[i].alike(other.lookups@[i]));
            assert(self.lookups@[i].filled(beta, gamma, last, next.lookups@[i]));
            assert(other.lookups@[i].filled(
                other_beta,
                other_gamma,
                last,
                other_next.lookups@[i],
            ));
        }
        assert(circuit_argument(*self.pk, beta, gamma, c) == circuit_argument(
            *other.pk,
            other_beta,
            other_gamma,
            d,
        ));
        lemma_products_alike(
            circuit_argument(*self.pk, beta, gamma, c),
            self.pk.cs.degree - 2,
            last,
            next.products@,
            other_next.products@,
        );
    }

    proof fn lemma_lookup_products_alike(
        self,
        other: Self,
        commitments: Vec<C>,
        other_commitments: Vec<C>,
        polys: Seq<Vec<F>>,
        other_polys: Seq<Vec<F>>,
        next: Self,
        other_next: Self,
        action: Action<F, C>,
        other_action: Action<F, C>,
    )
        requires
            self.alike(other),
            commitments@ == other_commitments@,
            columns(polys) == columns(other_polys),
            polys.len() == self.lookups@.len(),
            self.takes_lookup_products(commitments, polys, next, action),
            other.takes_lookup_products(other_commitments, other_polys, other_next, other_action),
        ensures
            next.alike(other_next),
            action.alike(other_action),
    {
        assert forall|i: int| 0 <= i < next.lookups@.len() implies (
        #[trigger] next.lookups@[i]).alike(other_next.lookups@[i]) by {
            assert(self.lookups@[i].alike(other.lookups@[i]));
            lemma_column_alike(polys, other_polys, i);
        }
    }

    proof fn lemma_permuted_columns_alike(
        self,
        other: Self,
        polys: Seq<Vec<F>>,
        other_polys: Seq<Vec<F>>,
        next: Self,
        other_next: Self,
        action: Action<F, C>,
        other_action: Action<F, C>,
    )
        requires
            self.alike(other),
            columns(polys) == columns(other_polys),
            polys.len() == 2 * self.lookups@.len(),
            self.takes_permuted_columns(polys, next, action),
            other.takes_permuted_columns(other_polys, other_next, other_action),
        ensures
            next.alike(other_next),
            action.alike(other_action),
    {
        assert(columns(self.products@).len() == self.products@.len());
        assert(columns(other.products@).len() == other.products@.len());
        assert forall|i: int| 0 <= i < next.lookups@.len() implies (
        #[trigger] next.lookups@[i]).alike(other_next.lookups@[i]) by {
            assert(self.lookups@[i].alike(other.lookups@[i]));
            lemma_column_alike(polys, other_polys, 2 * i);
            lemma_column_alike(polys, other_polys, 2 * i + 1);
        }
    }

    proof fn lemma_quotient_alike(
        self,
        other: Self,
        x: F,
        other_x: F,
        poly: Vec<F>,
        other_poly: Vec<F>,
        next: Self,
        other_next: Self,
        action: Action<F, C>,
        other_action: Action<F, C>,
    )
        requires
            self.alike(other),
            x.value() == other_x.value(),
            values(poly@) == values(other_poly@),
            self.takes_quotient(x, poly, next, action),
            other.takes_quotient(other_x, other_poly, other_next, other_action),
        ensures
            next.alike(other_next),
            action.alike(other_action),
    {
        assert(columns(self.products@).len() == self.products@.len());
        assert(columns(other.products@).len() == other.products@.len());
        lemma_groups_alike(
            next.inputs@,
            other_next.inputs@,
            next.groups@,
            other_next.groups@,
        );
    }

    proof fn lemma_evaluations_alike(
        self,
        other: Self,
        evals: Seq<Vec<F>>,
        other_evals: Seq<Vec<F>>,
        permutation: Seq<ProverQuery<F>>,
        other_permutation: Seq<ProverQuery<F>>,
        lookups: Seq<Vec<ProverQuery<F>>>,
        other_lookups: Seq<Vec<ProverQuery<F>>>,
        next: Self,
        other_next: Self,
        action: Action<F, C>,
        other_action: Action<F, C>,
    )
        requires
            self.alike(other),
            self.stage == Stage::Evaluations,
            self.valid(),
            evaluations_fit(self.groups@, evals),
            columns(evals) == columns(other_evals),
            asked(permutation) == asked(other_permutation),
            asked_alike(lookups, other_lookups),
            self.takes_evaluations(evals, permutation, lookups, next, action),
            other.takes_evaluations(
                other_evals,
                other_permutation,
                other_lookups,
                other_next,
                other_action,
            ),
        ensures
            next.alike(other_next),
            action.alike(other_action),
    {
        let n = self.inputs@.len() as int;
        assert(n == self.inputs.len());
        assert(points(self.inputs@).len() == n);
        assert(points(other.inputs@).len() == other.inputs@.len());
        let (a, b) = (action->evaluations@, other_action->evaluations@);
        assert forall|i: int| 0 <= i < n implies #[trigger] table(a)[i] == table(b)[i] by {
            assert(points(self.inputs@)[i] == (
                self.inputs@[i].0,
                self.inputs@[i].1.value(),
            ));
            assert(points(other.inputs@)[i] == (
                other.inputs@[i].0,
                other.inputs@[i].1.value(),
            ));
            assert(a[i].0 == self.inputs@[i].0);
            assert(b[i].0 == other.inputs@[i].0);
            let (g, j) = lemma_grouped_covers(self.inputs@, self.groups@, i);
            let (own, others) = (self.groups@[g].points@, other.groups@[g].points@);
            assert(places(own).len() == own.len());
            assert(places(others).len() == others.len());
            assert(places(own)[j] == (own[j].0, own[j].1.value()));
            assert(places(others)[j] == (others[j].0, others[j].1.value()));
            assert(self.groups@[g].points@[j].0 == i);
            assert(other.groups@[g].points@[j].0 == i);
            assert(evals[g]@.len() == own.len());
            lemma_column_alike(evals, other_evals, g);
            lemma_value_alike(evals[g]@, other_evals[g]@, j);
        }
        assert(table(a) =~= table(b));
        let (s, t) = (action->scalars@, other_action->scalars@);
        assert forall|i: int| 0 <= i < n - 1 implies #[trigger] values(s)[i] == values(t)[i] by {
            assert(table(a)[i + 1].2 == a[i + 1].2.value());
            assert(table(b)[i + 1].2 == b[i + 1].2.value());
        }
        assert(values(s) =~= values(t));
        lemma_concatenated_alike(lookups, other_lookups, lookups.len() as int);
    }

    /// Events that bring the same to states that hold the same lead to states that hold the same,
    /// with the same to be done.
    pub proof fn lemma_step_alike(
        self,
        other: Self,
        event: Event<F, C>,
        other_event: Event<F, C>,
        next: Self,
        other_next: Self,
        action: Action<F, C>,
        other_action: Action<F, C>,
    )
        requires
            self.valid(),
            self.alike(other),
            event.alike(other_event),
            self.fits(event),
            other.fits(other_event),
            self.leads_to(event, next, action),
            other.leads_to(other_event, other_next, other_action),
        ensures
            next.alike(other_next),
            action.alike(other_action),
    {
        assert(columns(self.advices@).len() == self.advices@.len());
        assert(columns(other.advices@).len() == other.advices@.len());
        match (self.stage, event, other_event) {
            (Stage::Theta, Event::Challenges(a), Event::Challenges(b)) => {
                lemma_value_alike(a@, b@, 0);
                self.lemma_theta_alike(other, a@[0], b@[0], next, other_next, action, other_action);
            },
            (Stage::BetaGamma, Event::Challenges(a), Event::Challenges(b)) => {
                lemma_value_alike(a@, b@, 0);
                lemma_value_alike(a@, b@, 1);
                self.lemma_beta_gamma_alike(
                    other,
                    a@[0],
                    a@[1],
                    b@[0],
                    b@[1],
                    next,
                    other_next,
                    action,
                    other_action,
                );
            },
            (
                Stage::LookupProducts,
                Event::CommittedPolys { commitments, polys },
                Event::CommittedPolys { commitments: other_commitments, polys: other_polys },
            ) => {
                self.lemma_lookup_products_alike(
                    other,
                    commitments,
                    other_commitments,
                    polys@,
                    other_polys@,
                    next,
                    other_next,
                    action,
                    other_action,
                );
            },
            (Stage::PermutedColumns, Event::Polys(a), Event::Polys(b)) => {
                self.lemma_permuted_columns_alike(
                    other,
                    a@,
                    b@,
                    next,
                    other_next,
                    action,
                    other_action,
                );
            },
            (Stage::Y, Event::Challenges(a), Event::Challenges(b)) => {
                lemma_value_alike(a@, b@, 0);
            },
            (
                Stage::Quotient,
                Event::Quotient { x, poly },
                Event::Quotient { x: other_x, poly: other_poly },
            ) => {
                self.lemma_quotient_alike(
                    other,
                    x,
                    other_x,
                    poly,
                    other_poly,
                    next,
                    other_next,
                    action,
                    other_action,
                );
            },
            (
                Stage::Evaluations,
                Event::Evaluations { evals, permutation, lookups },
                Event::Evaluations {
                    evals: other_evals,
                    permutation: other_permutation,
                    lookups: other_lookups,
                },
            ) => {
                self.lemma_evaluations_alike(
                    other,
                    evals@,
                    other_evals@,
                    permutation@,
                    other_permutation@,
                    lookups@,
                    other_lookups@,
                    next,
                    other_next,
                    action,
                    other_action,
                );
            },
            _ => {},
        }
    }

    /// Law of the states: an event that fits leads from a valid state to a valid state.
    pub proof fn lemma_stays_valid(self, event: Event<F, C>, next: Self, action: Action<F, C>)
        requires
            self.valid(),
            self.fits(event),
            self.leads_to(event, next, action),
        ensures
            next.valid(),
    {
    }
}

proof fn lemma_concatenated_alike<F: PrimeField>(
    s: Seq<Vec<ProverQuery<F>>>,
    t: Seq<Vec<ProverQuery<F>>>,
    n: int,
)
    requires
        asked_alike(s, t),
        n <= s.len(),
    ensures
        concatenated(s, n) == concatenated(t, n),
    decreases n,
{
    if n > 0 {
        lemma_concatenated_alike(s, t, n - 1);
        assert(asked(s[n - 1]@) == asked(t[n - 1]@));
    }
}

/// Two runs hold the same, and ask for the same, up to their state `n`.
pub open spec fn alike_until<'a, F: PrimeField, C: Copy>(
    states: Seq<ProverState<'a, F, C>>,
    actions: Seq<Action<F, C>>,
    other_states: Seq<ProverState<'a, F, C>>,
    other_actions: Seq<Action<F, C>>,
    n: int,
) -> bool {
    &&& forall|i: int| 0 <= i <= n ==> (#[trigger] states[i]).alike(other_states[i])
    &&& forall|i: int| 0 <= i < n ==> (#[trigger] actions[i]).alike(other_actions[i])
}

/// In the first `n` events, the answers of two runs are the same where all that was asked before
/// was: what comes back depends on what was asked alone.
pub open spec fn answered_alike<'a, F: PrimeField, C: Copy>(
    states: Seq<ProverState<'a, F, C>>,
    events: Seq<Event<F, C>>,
    actions: Seq<Action<F, C>>,
    other_states: Seq<ProverState<'a, F, C>>,
    other_events: Seq<Event<F, C>>,
    other_actions: Seq<Action<F, C>>,
    n: int,
) -> bool {
    forall|i: int|
        0 <= i < n && alike_until(states, actions, other_states, other_actions, i)
            ==> (#[trigger] events[i]).alike(other_events[i])
}

/// Law of determinism: two proofs for the same key and advice columns with the same values, whose
/// device and transcript answer the same to the same questions, hold the same columns and
/// challenges at every stage, commit to the same columns, and write the same points, in the same
/// order.
pub proof fn lemma_proof_is_determined<'a, F: PrimeField, C: Copy>(
    pk: &'a ProvingKey<F>,
    advices: Vec<Vec<F>>,
    other_advices: Vec<Vec<F>>,
    states: Seq<ProverState<'a, F, C>>,
    events: Seq<Event<F, C>>,
    actions: Seq<Action<F, C>>,
    other_states: Seq<ProverState<'a, F, C>>,
    other_events: Seq<Event<F, C>>,
    other_actions: Seq<Action<F, C>>,
    n: int,
)
    requires
        is_run(states, events, actions),
        is_run(other_states, other_events, other_actions),
        0 <= n <= events.len(),
        n <= other_events.len(),
        states[0].valid(),
        states[0].is_initial(pk, advices),
        other_states[0].is_initial(pk, other_advices),
        columns(advices@) == columns(other_advices@),
        answered_alike(
            states,
            events,
            actions,
            other_states,
            other_events,
            other_actions,
            n,
        ),
    ensures
        alike_until(states, actions, other_states, other_actions, n),
        forall|i: int, id: PolyId|
            0 <= i <= n ==> polys_alike(
                #[trigger] states[i].spec_poly(id),
                other_states[i].spec_poly(id),
            ),
        written(actions, n) == written(other_actions, n),
        states[n].valid(),
    decreases n,
{
    if n == 0 {
        lemma_initial_alike(pk, advices, other_advices, states[0], other_states[0]);
    } else {
        let k = n - 1;
        lemma_proof_is_determined(
            pk,
            advices,
            other_advices,
            states,
            events,
            actions,
            other_states,
            other_events,
            other_actions,
            k,
        );
        assert(events[k].alike(other_events[k]));
        assert(states[k].fits(events[k]));
        assert(other_states[k].fits(other_events[k]));
        states[k].lemma_step_alike(
            other_states[k],
            events[k],
            other_events[k],
            states[n],
            other_states[n],
            actions[k],
            other_actions[k],
        );
        states[k].lemma_stays_valid(events[k], states[n], actions[k]);
        assert(absorbed(actions[k]) == absorbed(other_actions[k]));
    }
    assert forall|i: int, id: PolyId| 0 <= i <= n implies polys_alike(
        #[trigger] states[i].spec_poly(id),
        other_states[i].spec_poly(id),
    ) by {
        states[i].lemma_alike_polys(other_states[i], id);
    }
}

proof fn lemma_initial_alike<'a, F: PrimeField, C: Copy>(
    pk: &'a ProvingKey<F>,
    advices: Vec<Vec<F>>,
    other_advices: Vec<Vec<F>>,
    state: ProverState<'a, F, C>,
    other: ProverState<'a, F, C>,
)
    requires
        state.is_initial(pk, advices),
        other.is_initial(pk, other_advices),
        columns(advices@) == columns(other_advices@),
    ensures
        state.alike(other),
{
    assert(columns(state.instance_values@) =~= columns(other.instance_values@));
    assert(columns(state.instance_polys@) =~= columns(other.instance_polys@));
    assert(columns(state.products@) =~= columns(other.products@));
    assert(values(state.random@) =~= values(other.random@));
    assert(values(state.quotient@) =~= values(other.quotient@));
    assert(state.single_commitments@ =~= other.single_commitments@);
    assert(state.lookup_commitments@ =~= other.lookup_commitments@);
    assert(points(state.inputs@) =~= points(other.inputs@));
}

} // verus!
