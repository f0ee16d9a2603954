//! Which polynomials are opened where: the evaluations that enter the transcript and the queries
//! of the final opening.
use crate::algebra::{
    lemma_mul_assoc, lemma_mul_commutes, lemma_mul_one, lemma_pow_inverse, lemma_pow_is_power,
    lemma_pow_sum, mul_mod, pow_mod,
};
use crate::circuit::{Any, ProvingKey};
use crate::expression::Rotation;
use crate::field::{repeat, PrimeField};
use vstd::arithmetic::div_mod::lemma_mul_mod_noop_right;
use vstd::arithmetic::power::pow;
use vstd::arithmetic::power2::{lemma2_to64, lemma_pow2_unfold, pow2};
use vstd::prelude::*;

verus! {

/// A polynomial of the proof.
#[derive(Clone, Copy, Debug, PartialEq, Eq, Structural)]
pub enum PolyId {
    /// An instance column.
    Instance(usize),
    /// An advice column.
    Advice(usize),
    /// A fixed column.
    Fixed(usize),
    /// The labels that a column of the permutation argument is mapped to.
    Permutation(usize),
    /// The product over a chunk of the permutation argument.
    PermutationProduct(usize),
    /// The permuted input of a lookup.
    PermutedInput(usize),
    /// The permuted table of a lookup.
    PermutedTable(usize),
    /// The product of a lookup.
    LookupProduct(usize),
    /// The quotient polynomial.
    Quotient,
    /// The blinding polynomial of the vanishing argument.
    Random,
}

/// A polynomial to be opened at a point.
#[derive(Clone, Copy, Debug)]
pub struct ProverQuery<F> {
    pub point: F,
    pub rotation: Rotation,
    pub poly: PolyId,
}

/// `x`, moved `rotation` steps around the domain.
pub open spec fn rotated_point(p: nat, omega: nat, omega_inv: nat, x: nat, rotation: int) -> nat {
    if rotation >= 0 {
        mul_mod(p, x, pow_mod(p, omega, rotation as nat))
    } else {
        mul_mod(p, x, pow_mod(p, omega_inv, (-rotation) as nat))
    }
}

/// Law of the rotations: moving back undoes moving forth.
pub proof fn lemma_rotation_undone(p: nat, omega: nat, omega_inv: nat, x: nat, rotation: int)
    requires
        p > 1,
        x < p,
        mul_mod(p, omega, omega_inv) == 1,
    ensures
        rotated_point(
            p,
            omega,
            omega_inv,
            rotated_point(p, omega, omega_inv, x, rotation),
            -rotation,
        ) == x,
{
    let n = if rotation >= 0 {
        rotation as nat
    } else {
        (-rotation) as nat
    };
    let (forth, back) = (pow_mod(p, omega, n), pow_mod(p, omega_inv, n));
    lemma_pow_inverse(p, omega, omega_inv, n);
    lemma_mul_commutes(p, forth, back);
    lemma_mul_assoc(p, x, forth, back);
    lemma_mul_assoc(p, x, back, forth);
    lemma_mul_one(p, x);
    if rotation == 0 {
        lemma_mul_one(p, 1);
    }
}

impl<F: PrimeField> ProvingKey<F> {
    /// `x`, moved `rotation` steps around the domain.
    pub open spec fn rotated(self, x: nat, rotation: int) -> nat {
        rotated_point(F::modulus(), self.omega.value(), self.omega_inv.value(), x, rotation)
    }

    /// `x`, moved `rotation` steps around the domain.
    pub fn rotate_omega(&self, x: F, rotation: Rotation) -> (r: F)
        ensures
            r.value() == self.rotated(x.value(), rotation.0 as int),
    {
        if rotation.0 >= 0 {
            x.mul(self.omega.pow(rotation.0 as u64))
        } else {
            x.mul(self.omega_inv.pow((-(rotation.0 as i64)) as u64))
        }
    }

    /// The rotation from the first row to the first row left to blinding.
    pub open spec fn spec_last_rotation(self) -> int {
        -(self.cs.blinding_factors + 1)
    }
}

/// Polynomials with the points at which they are opened.
pub open spec fn points<F: PrimeField>(s: Seq<(PolyId, F)>) -> Seq<(PolyId, nat)> {
    s.map_values(|x: (PolyId, F)| (x.0, x.1.value()))
}

/// The columns of one kind that a circuit opens.
pub open spec fn opened<F: PrimeField>(
    pk: ProvingKey<F>,
    x: nat,
    kind: Any,
    queries: Seq<(usize, Rotation)>,
) -> Seq<(PolyId, nat)> {
    queries.map_values(
        |q: (usize, Rotation)| (spec_column_poly(kind, q.0), pk.rotated(x, q.1.0 as int)),
    )
}

/// The points of the first `n` of `count` permutation products: the point, the next, and, for all
/// but the last product, the point where it hands over.
pub open spec fn product_points<F: PrimeField>(
    pk: ProvingKey<F>,
    x: nat,
    count: int,
    n: int,
) -> Seq<(PolyId, nat)>
    decreases n,
{
    if n <= 0 {
        Seq::empty()
    } else {
        let id = PolyId::PermutationProduct((n - 1) as usize);
        let both = product_points(pk, x, count, n - 1).push((id, x)).push((id, pk.rotated(x, 1)));
        if n == count {
            both
        } else {
            both.push((id, pk.rotated(x, pk.spec_last_rotation())))
        }
    }
}

/// The points of the first `n` lookups.
pub open spec fn lookup_points<F: PrimeField>(pk: ProvingKey<F>, x: nat, n: int) -> Seq<
    (PolyId, nat),
>
    decreases n,
{
    if n <= 0 {
        Seq::empty()
    } else {
        let i = (n - 1) as usize;
        lookup_points(pk, x, n - 1) + seq![
            (PolyId::LookupProduct(i), x),
            (PolyId::LookupProduct(i), pk.rotated(x, 1)),
            (PolyId::PermutedInput(i), x),
            (PolyId::PermutedInput(i), pk.rotated(x, -1)),
            (PolyId::PermutedTable(i), x),
        ]
    }
}

/// All evaluations of a proof, in the order of the transcript, after that of the quotient.
pub open spec fn evaluation_points<F: PrimeField>(
    pk: ProvingKey<F>,
    x: nat,
    products: int,
) -> Seq<(PolyId, nat)> {
    seq![(PolyId::Quotient, x)] + opened(pk, x, Any::Instance, pk.cs.instance_queries@) + opened(
        pk,
        x,
        Any::Advice,
        pk.cs.advice_queries@,
    ) + opened(pk, x, Any::Fixed, pk.cs.fixed_queries@) + seq![(PolyId::Random, x)] + Seq::new(
        pk.permutation_polys@.len(),
        |i: int| (PolyId::Permutation(i as usize), x),
    ) + product_points(pk, x, products, products) + lookup_points(
        pk,
        x,
        pk.cs.lookups@.len() as int,
    )
}

/// The polynomial that a query to a column of a kind is about.
fn column_poly(kind: Any, index: usize) -> (r: PolyId)
    ensures
        r == spec_column_poly(kind, index),
{
    match kind {
        Any::Advice => PolyId::Advice(index),
        Any::Fixed => PolyId::Fixed(index),
        Any::Instance => PolyId::Instance(index),
    }
}

pub open spec fn spec_column_poly(kind: Any, index: usize) -> PolyId {
    match kind {
        Any::Advice => PolyId::Advice(index),
        Any::Fixed => PolyId::Fixed(index),
        Any::Instance => PolyId::Instance(index),
    }
}

/// Appends the columns of one kind that a circuit opens.
fn push_opened<F: PrimeField>(
    pk: &ProvingKey<F>,
    x: F,
    kind: Any,
    queries: &Vec<(usize, Rotation)>,
    inputs: &mut Vec<(PolyId, F)>,
)
    ensures
        points(final(inputs)@) == points(old(inputs)@) + opened(*pk, x.value(), kind, queries@),
{
    let ghost before = points(inputs@);
    let ghost all = opened(*pk, x.value(), kind, queries@);
    assert(points(inputs@) =~= before + all.take(0));
    for i in 0..queries.len()
        invariant
            all == opened(*pk, x.value(), kind, queries@),
            points(inputs@) == before + all.take(i as int),
    {
        let (column, at) = queries[i];
        let ghost so_far = inputs@;
        inputs.push((column_poly(kind, column), pk.rotate_omega(x, at)));
        assert(points(inputs@) =~= points(so_far).push(all[i as int]));
        assert(points(inputs@) =~= before + all.take(i + 1));
    }
    assert(all.take(queries@.len() as int) =~= all);
}

/// Appends one polynomial and its point.
fn push_point<F: PrimeField>(poly: PolyId, x: F, inputs: &mut Vec<(PolyId, F)>)
    ensures
        points(final(inputs)@) == points(old(inputs)@).push((poly, x.value())),
{
    let ghost before = inputs@;
    inputs.push((poly, x));
    assert(points(inputs@) =~= points(before).push((poly, x.value())));
}

/// The polynomials that are evaluated, with their points, the quotient first.
pub fn evaluation_inputs<F: PrimeField>(pk: &ProvingKey<F>, x: F, products: usize) -> (r: Vec<
    (PolyId, F),
>)
    requires
        pk.cs.blinding_factors < i32::MAX,
    ensures
        points(r@) == evaluation_points(*pk, x.value(), products as int),
{
    let ghost v = x.value();
    let mut inputs: Vec<(PolyId, F)> = Vec::new();
    push_point(PolyId::Quotient, x, &mut inputs);
    assert(points(inputs@) =~= seq![(PolyId::Quotient, v)]);
    push_opened(pk, x, Any::Instance, &pk.cs.instance_queries, &mut inputs);
    push_opened(pk, x, Any::Advice, &pk.cs.advice_queries, &mut inputs);
    push_opened(pk, x, Any::Fixed, &pk.cs.fixed_queries, &mut inputs);
    let ghost before = points(inputs@);
    push_point(PolyId::Random, x, &mut inputs);
    assert(points(inputs@) =~= before + seq![(PolyId::Random, v)]);
    let ghost before = points(inputs@);
    let ghost polys = Seq::new(
        pk.permutation_polys@.len(),
        |i: int| (PolyId::Permutation(i as usize), v),
    );
    assert(points(inputs@) =~= before + polys.take(0));
    for i in 0..pk.permutation_polys.len()
        invariant
            v == x.value(),
            polys == Seq::new(
                pk.permutation_polys@.len(),
                |i: int| (PolyId::Permutation(i as usize), v),
            ),
            points(inputs@) == before + polys.take(i as int),
    {
        let ghost so_far = points(inputs@);
        push_point(PolyId::Permutation(i), x, &mut inputs);
        assert(so_far.push(polys[i as int]) =~= before + polys.take(i + 1));
    }
    assert(polys.take(polys.len() as int) =~= polys);
    let x_next = pk.rotate_omega(x, Rotation::next());
    let x_inv = pk.rotate_omega(x, Rotation::prev());
    let x_last = pk.rotate_omega(x, Rotation(-((pk.cs.blinding_factors + 1) as i32)));
    let ghost before = points(inputs@);
    assert(points(inputs@) =~= before + product_points(*pk, v, products as int, 0));
    for i in 0..products
        invariant
            v == x.value(),
            x_next.value() == pk.rotated(v, 1),
            x_last.value() == pk.rotated(v, pk.spec_last_rotation()),
            points(inputs@) == before + product_points(*pk, v, products as int, i as int),
    {
        let ghost so_far = points(inputs@);
        push_point(PolyId::PermutationProduct(i), x, &mut inputs);
        push_point(PolyId::PermutationProduct(i), x_next, &mut inputs);
        if i != products - 1 {
            push_point(PolyId::PermutationProduct(i), x_last, &mut inputs);
        }
        assert(points(inputs@) =~= before + product_points(*pk, v, products as int, i + 1));
    }
    let ghost before = points(inputs@);
    assert(points(inputs@) =~= before + lookup_points(*pk, v, 0));
    for i in 0..pk.cs.lookups.len()
        invariant
            v == x.value(),
            x_next.value() == pk.rotated(v, 1),
            x_inv.value() == pk.rotated(v, -1),
            points(inputs@) == before + lookup_points(*pk, v, i as int),
    {
        push_point(PolyId::LookupProduct(i), x, &mut inputs);
        push_point(PolyId::LookupProduct(i), x_next, &mut inputs);
        push_point(PolyId::PermutedInput(i), x, &mut inputs);
        push_point(PolyId::PermutedInput(i), x_inv, &mut inputs);
        push_point(PolyId::PermutedTable(i), x, &mut inputs);
        assert(points(inputs@) =~= before + lookup_points(*pk, v, i + 1));
    }
    inputs
}

/// A polynomial and the points at which it is evaluated, each with its place among all
/// evaluations.
#[derive(Debug)]
pub struct EvaluationGroup<F> {
    pub poly: PolyId,
    pub points: Vec<(usize, F)>,
}

/// Of the first `n` inputs, those to one polynomial, each with its place.
pub open spec fn points_of<F>(inputs: Seq<(PolyId, F)>, poly: PolyId, n: int) -> Seq<(usize, F)>
    decreases n,
{
    if n <= 0 {
        Seq::empty()
    } else if inputs[n - 1].0 == poly {
        points_of(inputs, poly, n - 1).push(((n - 1) as usize, inputs[n - 1].1))
    } else {
        points_of(inputs, poly, n - 1)
    }
}

/// The polynomials of the first `n` inputs, in the order in which they first occur.
pub open spec fn distinct_polys<F>(inputs: Seq<(PolyId, F)>, n: int) -> Seq<PolyId>
    decreases n,
{
    if n <= 0 {
        Seq::empty()
    } else {
        let before = distinct_polys(inputs, n - 1);
        if before.contains(inputs[n - 1].0) {
            before
        } else {
            before.push(inputs[n - 1].0)
        }
    }
}

/// The groups hold, for each polynomial in turn, all its points among the first `n` inputs.
pub open spec fn grouped<F>(
    inputs: Seq<(PolyId, F)>,
    groups: Seq<EvaluationGroup<F>>,
    n: int,
) -> bool {
    &&& groups.map_values(|g: EvaluationGroup<F>| g.poly) == distinct_polys(inputs, n)
    &&& forall|g: int|
        0 <= g < groups.len() ==> (#[trigger] groups[g]).points@ == points_of(
            inputs,
            groups[g].poly,
            n,
        )
}

/// The group of a polynomial, or the number of groups.
fn find_group<F>(groups: &Vec<EvaluationGroup<F>>, poly: PolyId) -> (r: usize)
    ensures
        r <= groups@.len(),
        r < groups@.len() ==> groups@[r as int].poly == poly,
        r == groups@.len() ==> forall|g: int|
            0 <= g < groups@.len() ==> (#[trigger] groups@[g]).poly != poly,
{
    for g in 0..groups.len()
        invariant
            forall|k: int| 0 <= k < g ==> (#[trigger] groups@[k]).poly != poly,
    {
        if groups[g].poly == poly {
            return g;
        }
    }
    groups.len()
}

/// A polynomial that has not occurred has no points.
proof fn lemma_no_points<F>(inputs: Seq<(PolyId, F)>, poly: PolyId, n: int)
    requires
        !distinct_polys(inputs, n).contains(poly),
    ensures
        points_of(inputs, poly, n) == Seq::<(usize, F)>::empty(),
    decreases n,
{
    if n > 0 {
        let before = distinct_polys(inputs, n - 1);
        if before.contains(poly) {
            let k = before.index_of(poly);
            assert(distinct_polys(inputs, n)[k] == poly);
        }
        if inputs[n - 1].0 == poly && !before.contains(poly) {
            assert(distinct_polys(inputs, n).last() == poly);
        }
        lemma_no_points(inputs, poly, n - 1);
    }
}

/// Gathers the inputs by polynomial, so that each polynomial has to be fetched once.
pub fn group_by_poly<F: PrimeField>(inputs: &Vec<(PolyId, F)>) -> (r: Vec<EvaluationGroup<F>>)
    ensures
        grouped(inputs@, r@, inputs@.len() as int),
{
    let mut groups: Vec<EvaluationGroup<F>> = Vec::new();
    assert(groups@.map_values(|g: EvaluationGroup<F>| g.poly) =~= Seq::empty());
    for i in 0..inputs.len()
        invariant
            grouped(inputs@, groups@, i as int),
    {
        let (poly, x) = inputs[i];
        let ghost before = groups@;
        let ghost names = before.map_values(|g: EvaluationGroup<F>| g.poly);
        let g = find_group(&groups, poly);
        if g < groups.len() {
            assert(names[g as int] == poly);
            assert(names.contains(poly));
            groups[g].points.push((i, x));
            proof {
                assert(groups@.map_values(|g: EvaluationGroup<F>| g.poly) =~= names);
                assert forall|k: int| 0 <= k < groups@.len() implies (
                #[trigger] groups@[k]).points@ == points_of(
                    inputs@,
                    groups@[k].poly,
                    i as int + 1,
                ) by {
                    assert(before[k].points@ == points_of(inputs@, before[k].poly, i as int));
                    if k != g {
                        assert(names[k] != poly) by {
                            lemma_distinct(inputs@, i as int, k, g as int);
                        }
                    }
                }
            }
        } else {
            assert(!names.contains(poly));
            proof {
                lemma_no_points(inputs@, poly, i as int);
            }
            let mut points: Vec<(usize, F)> = Vec::new();
            points.push((i, x));
            groups.push(EvaluationGroup { poly, points });
            proof {
                assert(groups@.map_values(|g: EvaluationGroup<F>| g.poly) =~= names.push(poly));
                assert forall|k: int| 0 <= k < groups@.len() implies (
                #[trigger] groups@[k]).points@ == points_of(
                    inputs@,
                    groups@[k].poly,
                    i as int + 1,
                ) by {
                    if k < before.len() {
                        assert(before[k].points@ == points_of(inputs@, before[k].poly, i as int));
                    }
                }
            }
        }
    }
    groups
}

/// No polynomial occurs twice among the distinct ones.
proof fn lemma_distinct<F>(inputs: Seq<(PolyId, F)>, n: int, a: int, b: int)
    requires
        0 <= a < distinct_polys(inputs, n).len(),
        0 <= b < distinct_polys(inputs, n).len(),
        a != b,
    ensures
        distinct_polys(inputs, n)[a] != distinct_polys(inputs, n)[b],
    decreases n,
{
    let before = distinct_polys(inputs, n - 1);
    if a < before.len() && b < before.len() {
        lemma_distinct(inputs, n - 1, a, b);
    } else if a < before.len() {
        assert(before.contains(before[a]));
    } else if b < before.len() {
        assert(before.contains(before[b]));
    }
}

/// Law of the groups: every input stands in the group of its polynomial, at the returned place.
pub proof fn lemma_grouped_covers<F>(
    inputs: Seq<(PolyId, F)>,
    groups: Seq<EvaluationGroup<F>>,
    i: int,
) -> (place: (int, int))
    requires
        grouped(inputs, groups, inputs.len() as int),
        inputs.len() <= usize::MAX,
        0 <= i < inputs.len(),
    ensures
        0 <= place.0 < groups.len(),
        groups[place.0].poly == inputs[i].0,
        0 <= place.1 < groups[place.0].points@.len(),
        groups[place.0].points@[place.1] == (i as usize, inputs[i].1),
{
    let n = inputs.len() as int;
    lemma_occurs(inputs, n, i);
    let names = groups.map_values(|g: EvaluationGroup<F>| g.poly);
    assert(names.contains(inputs[i].0));
    let g = names.index_of(inputs[i].0);
    assert(groups[g].poly == inputs[i].0);
    let k = lemma_has_point(inputs, n, i);
    (g, k)
}

proof fn lemma_occurs<F>(inputs: Seq<(PolyId, F)>, n: int, i: int)
    requires
        0 <= i < n,
    ensures
        distinct_polys(inputs, n).contains(inputs[i].0),
    decreases n,
{
    let before = distinct_polys(inputs, n - 1);
    if i < n - 1 {
        lemma_occurs(inputs, n - 1, i);
        let k = before.index_of(inputs[i].0);
        assert(distinct_polys(inputs, n)[k] == inputs[i].0);
    } else if !before.contains(inputs[i].0) {
        assert(distinct_polys(inputs, n).last() == inputs[i].0);
    }
}

proof fn lemma_has_point<F>(inputs: Seq<(PolyId, F)>, n: int, i: int) -> (k: int)
    requires
        0 <= i < n <= usize::MAX,
    ensures
        0 <= k < points_of(inputs, inputs[i].0, n).len(),
        points_of(inputs, inputs[i].0, n)[k] == (i as usize, inputs[i].1),
    decreases n,
{
    if i == n - 1 {
        points_of(inputs, inputs[i].0, n - 1).len() as int
    } else {
        lemma_has_point(inputs, n - 1, i)
    }
}

/// The points of a polynomial belong to inputs with that polynomial, in the order of the inputs.
proof fn lemma_point<F>(inputs: Seq<(PolyId, F)>, poly: PolyId, n: int, k: int)
    requires
        0 <= n <= usize::MAX,
        0 <= k < points_of(inputs, poly, n).len(),
    ensures
        points_of(inputs, poly, n)[k].0 < n,
        inputs[points_of(inputs, poly, n)[k].0 as int].0 == poly,
        forall|j: int|
            0 <= j < k ==> (#[trigger] points_of(inputs, poly, n)[j]).0 < points_of(
                inputs,
                poly,
                n,
            )[k].0,
    decreases n,
{
    let before = points_of(inputs, poly, n - 1);
    if k < before.len() {
        lemma_point(inputs, poly, n - 1, k);
        assert forall|j: int| 0 <= j < k implies (#[trigger] points_of(inputs, poly, n)[j]).0
            < points_of(inputs, poly, n)[k].0 by {
            assert(before[j].0 < before[k].0);
        }
    } else {
        assert forall|j: int| 0 <= j < k implies (#[trigger] points_of(inputs, poly, n)[j]).0
            < points_of(inputs, poly, n)[k].0 by {
            lemma_point(inputs, poly, n - 1, j);
        }
    }
}

/// Two places in the groups belong to two inputs.
proof fn lemma_places_differ<F>(
    inputs: Seq<(PolyId, F)>,
    groups: Seq<EvaluationGroup<F>>,
    g: int,
    j: int,
    h: int,
    k: int,
)
    requires
        grouped(inputs, groups, inputs.len() as int),
        inputs.len() <= usize::MAX,
        0 <= g < groups.len(),
        0 <= j < groups[g].points@.len(),
        0 <= h < groups.len(),
        0 <= k < groups[h].points@.len(),
        g != h || j != k,
    ensures
        groups[g].points@[j].0 != groups[h].points@[k].0,
{
    let n = inputs.len() as int;
    lemma_point(inputs, groups[g].poly, n, j);
    lemma_point(inputs, groups[h].poly, n, k);
    if g != h {
        let names = groups.map_values(|g: EvaluationGroup<F>| g.poly);
        assert(names[g] != names[h]) by {
            lemma_distinct(inputs, n, g, h);
        }
    }
}

/// Every place in the groups belongs to an input.
pub proof fn lemma_place_in_range<F>(
    inputs: Seq<(PolyId, F)>,
    groups: Seq<EvaluationGroup<F>>,
    g: int,
    j: int,
)
    requires
        grouped(inputs, groups, inputs.len() as int),
        inputs.len() <= usize::MAX,
        0 <= g < groups.len(),
        0 <= j < groups[g].points@.len(),
    ensures
        groups[g].points@[j].0 < inputs.len(),
{
    lemma_point(inputs, groups[g].poly, inputs.len() as int, j);
}

/// One evaluation for each point of each group.
pub open spec fn evaluations_fit<F>(groups: Seq<EvaluationGroup<F>>, evals: Seq<Vec<F>>) -> bool {
    &&& evals.len() == groups.len()
    &&& forall|g: int|
        0 <= g < groups.len() ==> (#[trigger] evals[g])@.len() == groups[g].points@.len()
}

/// Whether there is one evaluation for each point of each group.
pub fn fit_evaluations<F>(groups: &Vec<EvaluationGroup<F>>, evals: &Vec<Vec<F>>) -> (r: bool)
    ensures
        r == evaluations_fit(groups@, evals@),
{
    if evals.len() != groups.len() {
        return false;
    }
    for g in 0..groups.len()
        invariant
            evals@.len() == groups@.len(),
            forall|k: int| 0 <= k < g ==> (#[trigger] evals@[k])@.len() == groups@[k].points@.len(),
    {
        if evals[g].len() != groups[g].points.len() {
            return false;
        }
    }
    true
}

/// Puts the evaluations of the groups back into the places of the inputs.
pub fn scatter_evaluations<F: PrimeField>(
    inputs: &Vec<(PolyId, F)>,
    groups: &Vec<EvaluationGroup<F>>,
    evals: &Vec<Vec<F>>,
) -> (r: Vec<F>)
    requires
        grouped(inputs@, groups@, inputs@.len() as int),
        evaluations_fit(groups@, evals@),
    ensures
        r@.len() == inputs@.len(),
        forall|g: int, j: int|
            0 <= g < groups@.len() && 0 <= j < groups@[g].points@.len()
                ==> r@[#[trigger] groups@[g].points@[j].0 as int] == evals@[g]@[j],
{
    let mut r = repeat(F::zero(), inputs.len());
    for g in 0..groups.len()
        invariant
            grouped(inputs@, groups@, inputs@.len() as int),
            evaluations_fit(groups@, evals@),
            inputs@.len() <= usize::MAX,
            r@.len() == inputs@.len(),
            forall|h: int, k: int|
                0 <= h < g && 0 <= k < groups@[h].points@.len()
                    ==> r@[#[trigger] groups@[h].points@[k].0 as int] == evals@[h]@[k],
    {
        assert(evals@[g as int]@.len() == groups@[g as int].points@.len());
        let count: usize = groups[g].points.len();
        for j in 0..count
            invariant
                count == groups@[g as int].points@.len(),
                grouped(inputs@, groups@, inputs@.len() as int),
                inputs@.len() <= usize::MAX,
                g < groups@.len(),
                evals@.len() == groups@.len(),
                evals@[g as int]@.len() == groups@[g as int].points@.len(),
                r@.len() == inputs@.len(),
                forall|h: int, k: int|
                    0 <= h < g && 0 <= k < groups@[h].points@.len()
                        ==> r@[#[trigger] groups@[h].points@[k].0 as int] == evals@[h]@[k],
                forall|k: int|
                    0 <= k < j ==> r@[#[trigger] groups@[g as int].points@[k].0 as int]
                        == evals@[g as int]@[k],
        {
            let place = groups[g].points[j].0;
            let ghost before = r@;
            proof {
                lemma_place_in_range(inputs@, groups@, g as int, j as int);
            }
            r[place] = evals[g][j];
            proof {
                assert forall|h: int, k: int|
                    0 <= h < g && 0 <= k < groups@[h].points@.len() implies r@[
                #[trigger] groups@[h].points@[k].0 as int] == evals@[h]@[k] by {
                    lemma_places_differ(inputs@, groups@, h, k, g as int, j as int);
                    lemma_place_in_range(inputs@, groups@, h, k);
                }
                assert forall|k: int| 0 <= k < j + 1 implies r@[
                #[trigger] groups@[g as int].points@[k].0 as int] == evals@[g as int]@[k] by {
                    if k != j {
                        lemma_places_differ(inputs@, groups@, g as int, k, g as int, j as int);
                        lemma_place_in_range(inputs@, groups@, g as int, k);
                    }
                }
            }
        }
    }
    r
}

/// The powers `x, x^2, x^4, ...` by which a polynomial with `2^k` coefficients is evaluated by
/// halving; at least one.
pub fn squarings<F: PrimeField>(x: F, k: u32) -> (r: Vec<F>)
    ensures
        r@.len() == if k == 0 {
            1
        } else {
            k as nat
        },
        forall|i: int|
            0 <= i < r@.len() ==> (#[trigger] r@[i]).value() == pow_mod(
                F::modulus(),
                x.value(),
                pow2(i as nat),
            ),
{
    let mut r: Vec<F> = Vec::new();
    let mut last = x;
    r.push(x);
    proof {
        F::lemma_modulus();
        x.lemma_value();
        lemma2_to64();
        lemma_mul_one(F::modulus(), x.value());
        assert(pow_mod(F::modulus(), x.value(), 0) == 1nat % F::modulus());
        assert(pow_mod(F::modulus(), x.value(), 1) == mul_mod(
            F::modulus(),
            pow_mod(F::modulus(), x.value(), 0),
            x.value(),
        ));
        vstd::arithmetic::div_mod::lemma_small_mod(1, F::modulus());
    }
    let mut i: u32 = 1;
    while i < k
        invariant
            1 <= i,
            i <= k || i == 1,
            r@.len() == i,
            last.value() == pow_mod(F::modulus(), x.value(), pow2((i - 1) as nat)),
            forall|j: int|
                0 <= j < i ==> (#[trigger] r@[j]).value() == pow_mod(
                    F::modulus(),
                    x.value(),
                    pow2(j as nat),
                ),
        decreases k - i,
    {
        proof {
            F::lemma_modulus();
            let half = pow2((i - 1) as nat);
            lemma_pow2_unfold(i as nat);
            lemma_pow_sum(F::modulus(), x.value(), half, half);
        }
        last = last.mul(last);
        r.push(last);
        i += 1;
    }
    r
}

/// What a query asks for.
pub open spec fn asked<F: PrimeField>(s: Seq<ProverQuery<F>>) -> Seq<(PolyId, Rotation, nat)> {
    s.map_values(|q: ProverQuery<F>| (q.poly, q.rotation, q.point.value()))
}

/// The queries to the columns of one kind.
pub open spec fn column_queries<F: PrimeField>(
    pk: ProvingKey<F>,
    x: nat,
    kind: Any,
    queries: Seq<(usize, Rotation)>,
) -> Seq<(PolyId, Rotation, nat)> {
    queries.map_values(
        |q: (usize, Rotation)|
            (spec_column_poly(kind, q.0), q.1, pk.rotated(x, q.1.0 as int)),
    )
}

/// The queries of several lookups, one after the other.
pub open spec fn concatenated<F: PrimeField>(s: Seq<Vec<ProverQuery<F>>>, n: int) -> Seq<
    (PolyId, Rotation, nat),
>
    decreases n,
{
    if n <= 0 {
        Seq::empty()
    } else {
        concatenated(s, n - 1) + asked(s[n - 1]@)
    }
}

/// All queries of the final opening, in order.
pub open spec fn opening_queries<F: PrimeField>(
    pk: ProvingKey<F>,
    x: nat,
    permutation: Seq<ProverQuery<F>>,
    lookups: Seq<Vec<ProverQuery<F>>>,
) -> Seq<(PolyId, Rotation, nat)> {
    column_queries(pk, x, Any::Instance, pk.cs.instance_queries@) + column_queries(
        pk,
        x,
        Any::Advice,
        pk.cs.advice_queries@,
    ) + asked(permutation) + concatenated(lookups, lookups.len() as int) + column_queries(
        pk,
        x,
        Any::Fixed,
        pk.cs.fixed_queries@,
    ) + Seq::new(
        pk.permutation_polys@.len(),
        |i: int| (PolyId::Permutation(i as usize), Rotation(0), x),
    ) + seq![(PolyId::Quotient, Rotation(0), x), (PolyId::Random, Rotation(0), x)]
}

fn push_column_queries<F: PrimeField>(
    pk: &ProvingKey<F>,
    x: F,
    kind: Any,
    queries: &Vec<(usize, Rotation)>,
    all: &mut Vec<ProverQuery<F>>,
)
    ensures
        asked(final(all)@) == asked(old(all)@) + column_queries(*pk, x.value(), kind, queries@),
{
    let ghost before = asked(all@);
    let ghost part = column_queries(*pk, x.value(), kind, queries@);
    assert(asked(all@) =~= before + part.take(0));
    for i in 0..queries.len()
        invariant
            part == column_queries(*pk, x.value(), kind, queries@),
            asked(all@) == before + part.take(i as int),
    {
        let (column, at) = queries[i];
        let ghost so_far = all@;
        all.push(
            ProverQuery {
                point: pk.rotate_omega(x, at),
                rotation: at,
                poly: column_poly(kind, column),
            },
        );
        assert(asked(all@) =~= asked(so_far).push(part[i as int]));
        assert(asked(all@) =~= before + part.take(i + 1));
    }
    assert(part.take(queries@.len() as int) =~= part);
}

fn push_queries<F: PrimeField>(part: &Vec<ProverQuery<F>>, all: &mut Vec<ProverQuery<F>>)
    ensures
        asked(final(all)@) == asked(old(all)@) + asked(part@),
{
    let ghost before = all@;
    for i in 0..part.len()
        invariant
            all@ == before + part@.take(i as int),
    {
        all.push(part[i]);
        assert(all@ =~= before + part@.take(i + 1));
    }
    assert(part@.take(part@.len() as int) =~= part@);
    assert(asked(all@) =~= asked(before) + asked(part@));
}

/// The queries of the final opening, given those of the permutation products and of each lookup.
pub fn prover_queries<F: PrimeField>(
    pk: &ProvingKey<F>,
    x: F,
    permutation: &Vec<ProverQuery<F>>,
    lookups: &Vec<Vec<ProverQuery<F>>>,
) -> (r: Vec<ProverQuery<F>>)
    ensures
        asked(r@) == opening_queries(*pk, x.value(), permutation@, lookups@),
{
    let ghost v = x.value();
    let mut all: Vec<ProverQuery<F>> = Vec::new();
    assert(asked(all@) =~= Seq::empty());
    push_column_queries(pk, x, Any::Instance, &pk.cs.instance_queries, &mut all);
    assert(asked(all@) =~= column_queries(*pk, v, Any::Instance, pk.cs.instance_queries@));
    push_column_queries(pk, x, Any::Advice, &pk.cs.advice_queries, &mut all);
    push_queries(permutation, &mut all);
    let ghost before = asked(all@);
    assert(asked(all@) =~= before + concatenated(lookups@, 0));
    for i in 0..lookups.len()
        invariant
            asked(all@) == before + concatenated(lookups@, i as int),
    {
        push_queries(&lookups[i], &mut all);
        assert(asked(all@) =~= before + concatenated(lookups@, i + 1));
    }
    push_column_queries(pk, x, Any::Fixed, &pk.cs.fixed_queries, &mut all);
    let ghost before = asked(all@);
    let ghost polys = Seq::new(
        pk.permutation_polys@.len(),
        |i: int| (PolyId::Permutation(i as usize), Rotation(0), v),
    );
    assert(asked(all@) =~= before + polys.take(0));
    for i in 0..pk.permutation_polys.len()
        invariant
            v == x.value(),
            polys == Seq::new(
                pk.permutation_polys@.len(),
                |i: int| (PolyId::Permutation(i as usize), Rotation(0), v),
            ),
            asked(all@) == before + polys.take(i as int),
    {
        let ghost so_far = all@;
        all.push(
            ProverQuery { point: x, rotation: Rotation::cur(), poly: PolyId::Permutation(i) },
        );
        assert(asked(all@) =~= asked(so_far).push(polys[i as int]));
        assert(asked(all@) =~= before + polys.take(i + 1));
    }
    assert(polys.take(polys.len() as int) =~= polys);
    let ghost before = asked(all@);
    all.push(ProverQuery { point: x, rotation: Rotation::cur(), poly: PolyId::Quotient });
    all.push(ProverQuery { point: x, rotation: Rotation::cur(), poly: PolyId::Random });
    assert(asked(all@) =~= before + seq![
        (PolyId::Quotient, Rotation(0), v),
        (PolyId::Random, Rotation(0), v),
    ]);
    all
}

/// Whether a query asks for a polynomial at one of the points.
pub open spec fn evaluated(q: (PolyId, Rotation, nat), all: Seq<(PolyId, nat)>) -> bool {
    all.contains((q.0, q.2))
}

/// Law of the opening: whatever is opened has been evaluated. It holds of every query of the
/// opening if it holds of those for the permutation products and the lookups.
pub proof fn lemma_opened_is_evaluated<F: PrimeField>(
    pk: ProvingKey<F>,
    x: nat,
    products: int,
    permutation: Seq<ProverQuery<F>>,
    lookups: Seq<Vec<ProverQuery<F>>>,
    i: int,
)
    requires
        forall|k: int|
            0 <= k < asked(permutation).len() ==> evaluated(
                #[trigger] asked(permutation)[k],
                evaluation_points(pk, x, products),
            ),
        forall|l: int, k: int|
            0 <= l < lookups.len() && 0 <= k < asked(lookups[l]@).len() ==> evaluated(
                #[trigger] asked(lookups[l]@)[k],
                evaluation_points(pk, x, products),
            ),
        0 <= i < opening_queries(pk, x, permutation, lookups).len(),
    ensures
        evaluated(
            opening_queries(pk, x, permutation, lookups)[i],
            evaluation_points(pk, x, products),
        ),
{
    let all = evaluation_points(pk, x, products);
    let q = opening_queries(pk, x, permutation, lookups)[i];
    let (a, b, c) = (
        pk.cs.instance_queries@.len() as int,
        pk.cs.advice_queries@.len() as int,
        pk.cs.fixed_queries@.len() as int,
    );
    let m = pk.permutation_polys@.len() as int;
    let p = permutation.len() as int;
    let l = concatenated(lookups, lookups.len() as int);
    if i < a {
        assert(all[1 + i] == (q.0, q.2));
    } else if i < a + b {
        assert(all[1 + i] == (q.0, q.2));
    } else if i < a + b + p {
        assert(q == asked(permutation)[i - a - b]);
    } else if i < a + b + p + l.len() {
        assert(q == l[i - a - b - p]);
        lemma_concatenated_evaluated(lookups, lookups.len() as int, all, i - a - b - p);
    } else {
        let k = i - a - b - p - l.len();
        if k < c {
            assert(all[1 + a + b + k] == (q.0, q.2));
        } else if k < c + m {
            assert(all[2 + a + b + k] == (q.0, q.2));
        } else if k == c + m {
            assert(all[0] == (q.0, q.2));
        } else {
            assert(all[1 + a + b + c] == (q.0, q.2));
        }
    }
}

proof fn lemma_concatenated_evaluated<F: PrimeField>(
    lookups: Seq<Vec<ProverQuery<F>>>,
    n: int,
    all: Seq<(PolyId, nat)>,
    i: int,
)
    requires
        n <= lookups.len(),
        forall|l: int, k: int|
            0 <= l < lookups.len() && 0 <= k < asked(lookups[l]@).len() ==> evaluated(
                #[trigger] asked(lookups[l]@)[k],
                all,
            ),
        0 <= i < concatenated(lookups, n).len(),
    ensures
        evaluated(concatenated(lookups, n)[i], all),
    decreases n,
{
    if n > 0 {
        let before = concatenated(lookups, n - 1);
        if i < before.len() {
            lemma_concatenated_evaluated(lookups, n - 1, all, i);
        } else {
            assert(evaluated(asked(lookups[n - 1]@)[i - before.len()], all));
        }
    }
}

/// Law of the listing: polynomials and points stand in the places of the inputs.
pub proof fn lemma_points<F: PrimeField>(s: Seq<(PolyId, F)>, i: int)
    ensures
        points(s).len() == s.len(),
        0 <= i < s.len() ==> points(s)[i] == (s[i].0, s[i].1.value()),
{
}

/// Law of the rotations: `rotation` steps forward multiply by that power of `omega`, steps back by
/// that power of its inverse.
pub proof fn lemma_rotated<F: PrimeField>(pk: ProvingKey<F>, x: nat, rotation: int)
    ensures
        rotation >= 0 ==> pk.rotated(x, rotation) == (x * pow(
            pk.omega.value() as int,
            rotation as nat,
        )) % F::modulus() as int,
        rotation < 0 ==> pk.rotated(x, rotation) == (x * pow(
            pk.omega_inv.value() as int,
            (-rotation) as nat,
        )) % F::modulus() as int,
        pk.spec_last_rotation() == -(pk.cs.blinding_factors + 1),
{
    let p = F::modulus();
    F::lemma_modulus();
    if rotation >= 0 {
        let w = pk.omega.value();
        lemma_pow_is_power(p, w, rotation as nat);
        lemma_mul_mod_noop_right(x as int, pow(w as int, rotation as nat), p as int);
    } else {
        let w = pk.omega_inv.value();
        lemma_pow_is_power(p, w, (-rotation) as nat);
        lemma_mul_mod_noop_right(x as int, pow(w as int, (-rotation) as nat), p as int);
    }
}

/// The points of the first `n` products, by index.
proof fn lemma_product_points<F: PrimeField>(pk: ProvingKey<F>, x: nat, count: int, n: int, j: int)
    requires
        0 <= j < n <= count,
    ensures
        ({
            let s = product_points(pk, x, count, n);
            let id = PolyId::PermutationProduct(j as usize);
            &&& s.len() == 3 * n - if n == count {
                1int
            } else {
                0
            }
            &&& s[3 * j] == (id, x)
            &&& s[3 * j + 1] == (id, pk.rotated(x, 1))
            &&& j != count - 1 ==> s[3 * j + 2] == (id, pk.rotated(
                x,
                -(pk.cs.blinding_factors + 1),
            ))
        }),
    decreases n,
{
    assert(product_points(pk, x, count, 0) =~= Seq::empty());
    if n > 1 {
        lemma_product_points(pk, x, count, n - 1, if j < n - 1 {
            j
        } else {
            0
        });
    }
}

/// The points of the first `n` lookups, by index.
proof fn lemma_lookup_points<F: PrimeField>(pk: ProvingKey<F>, x: nat, n: int, l: int)
    requires
        0 <= l < n,
    ensures
        ({
            let s = lookup_points(pk, x, n);
            &&& s.len() == 5 * n
            &&& s[5 * l] == (PolyId::LookupProduct(l as usize), x)
            &&& s[5 * l + 1] == (PolyId::LookupProduct(l as usize), pk.rotated(x, 1))
            &&& s[5 * l + 2] == (PolyId::PermutedInput(l as usize), x)
            &&& s[5 * l + 3] == (PolyId::PermutedInput(l as usize), pk.rotated(x, -1))
            &&& s[5 * l + 4] == (PolyId::PermutedTable(l as usize), x)
        }),
    decreases n,
{
    assert(lookup_points(pk, x, 0) =~= Seq::empty());
    if n > 1 {
        lemma_lookup_points(pk, x, n - 1, if l < n - 1 {
            l
        } else {
            0
        });
    }
}

/// Law of the evaluations, place by place: the quotient; each query to an instance, an advice and
/// a fixed column, at its rotation; the blinding polynomial; each permutation polynomial; each
/// permutation product at the point, at the next and, but for the last product, where it hands
/// over; and of each lookup the product at the point and the next, the permuted input at the point
/// and the one before, and the permuted table. Nothing else.
pub proof fn lemma_evaluation_layout<F: PrimeField>(
    pk: ProvingKey<F>,
    x: nat,
    products: int,
    i: int,
)
    requires
        0 <= products,
    ensures
        ({
            let s = evaluation_points(pk, x, products);
            let (a, b, c) = (
                pk.cs.instance_queries@.len() as int,
                pk.cs.advice_queries@.len() as int,
                pk.cs.fixed_queries@.len() as int,
            );
            let m = pk.permutation_polys@.len() as int;
            let n = pk.cs.lookups@.len() as int;
            let first_product = 2 + a + b + c + m;
            let first_lookup = first_product + if products > 0 {
                3 * products - 1
            } else {
                0
            };
            let product = PolyId::PermutationProduct(i as usize);
            let at = first_product + 3 * i;
            let of = first_lookup + 5 * i;
            &&& s.len() == first_lookup + 5 * n
            &&& s[0] == (PolyId::Quotient, x)
            &&& 0 <= i < a ==> s[1 + i] == (
                PolyId::Instance(pk.cs.instance_queries@[i].0),
                pk.rotated(x, pk.cs.instance_queries@[i].1.0 as int),
            )
            &&& 0 <= i < b ==> s[1 + a + i] == (
                PolyId::Advice(pk.cs.advice_queries@[i].0),
                pk.rotated(x, pk.cs.advice_queries@[i].1.0 as int),
            )
            &&& 0 <= i < c ==> s[1 + a + b + i] == (
                PolyId::Fixed(pk.cs.fixed_queries@[i].0),
                pk.rotated(x, pk.cs.fixed_queries@[i].1.0 as int),
            )
            &&& s[1 + a + b + c] == (PolyId::Random, x)
            &&& 0 <= i < m ==> s[2 + a + b + c + i] == (PolyId::Permutation(i as usize), x)
            &&& 0 <= i < products ==> s[at] == (product, x)
            &&& 0 <= i < products ==> s[at + 1] == (product, pk.rotated(x, 1))
            &&& 0 <= i < products - 1 ==> s[at + 2] == (
                product,
                pk.rotated(x, -(pk.cs.blinding_factors + 1)),
            )
            &&& 0 <= i < n ==> s[of] == (PolyId::LookupProduct(i as usize), x)
            &&& 0 <= i < n ==> s[of + 1] == (
                PolyId::LookupProduct(i as usize),
                pk.rotated(x, 1),
            )
            &&& 0 <= i < n ==> s[of + 2] == (PolyId::PermutedInput(i as usize), x)
            &&& 0 <= i < n ==> s[of + 3] == (
                PolyId::PermutedInput(i as usize),
                pk.rotated(x, -1),
            )
            &&& 0 <= i < n ==> s[of + 4] == (PolyId::PermutedTable(i as usize), x)
        }),
{
    let n = pk.cs.lookups@.len() as int;
    if products > 0 {
        lemma_product_points(pk, x, products, products, 0);
        if 0 <= i < products {
            lemma_product_points(pk, x, products, products, i);
        }
    }
    if n > 0 {
        lemma_lookup_points(pk, x, n, 0);
        if 0 <= i < n {
            lemma_lookup_points(pk, x, n, i);
        }
    }
}

/// Law of the queries: each asks for its polynomial, its rotation and its point.
pub proof fn lemma_asked<F: PrimeField>(s: Seq<ProverQuery<F>>, i: int)
    ensures
        asked(s).len() == s.len(),
        0 <= i < s.len() ==> asked(s)[i] == (s[i].poly, s[i].rotation, s[i].point.value()),
{
}

/// Law of the lookup queries: one after the other, all of them.
pub proof fn lemma_concatenated<F: PrimeField>(s: Seq<Vec<ProverQuery<F>>>, n: int)
    requires
        0 <= n <= s.len(),
    ensures
        concatenated(s, n) == Seq::new(n as nat, |i: int| asked(s[i]@)).flatten(),
    decreases n,
{
    let all = Seq::new(n as nat, |i: int| asked(s[i]@));
    all.lemma_flatten_and_flatten_alt_are_equivalent();
    if n > 0 {
        let before = Seq::new((n - 1) as nat, |i: int| asked(s[i]@));
        lemma_concatenated(s, n - 1);
        before.lemma_flatten_and_flatten_alt_are_equivalent();
        assert(all.drop_last() =~= before);
    }
}

/// Law of the opening, place by place: each query to an instance and an advice column, at its
/// rotation; those of the permutation products; those of the lookups; each query to a fixed
/// column; each permutation polynomial, the quotient and the blinding polynomial at the point.
/// Nothing else.
pub proof fn lemma_opening_layout<F: PrimeField>(
    pk: ProvingKey<F>,
    x: nat,
    permutation: Seq<ProverQuery<F>>,
    lookups: Seq<Vec<ProverQuery<F>>>,
    i: int,
)
    ensures
        ({
            let s = opening_queries(pk, x, permutation, lookups);
            let (a, b, c) = (
                pk.cs.instance_queries@.len() as int,
                pk.cs.advice_queries@.len() as int,
                pk.cs.fixed_queries@.len() as int,
            );
            let m = pk.permutation_polys@.len() as int;
            let p = permutation.len() as int;
            let each = Seq::new(lookups.len(), |k: int| asked(lookups[k]@)).flatten();
            let l = each.len() as int;
            let (q_a, q_b, q_c) = (
                pk.cs.instance_queries@[i],
                pk.cs.advice_queries@[i],
                pk.cs.fixed_queries@[i],
            );
            let rest = a + b + p + l;
            &&& s.len() == rest + c + m + 2
            &&& 0 <= i < a ==> s[i] == (
                PolyId::Instance(q_a.0),
                q_a.1,
                pk.rotated(x, q_a.1.0 as int),
            )
            &&& 0 <= i < b ==> s[a + i] == (
                PolyId::Advice(q_b.0),
                q_b.1,
                pk.rotated(x, q_b.1.0 as int),
            )
            &&& 0 <= i < p ==> s[a + b + i] == (
                permutation[i].poly,
                permutation[i].rotation,
                permutation[i].point.value(),
            )
            &&& 0 <= i < l ==> s[a + b + p + i] == each[i]
            &&& 0 <= i < c ==> s[rest + i] == (
                PolyId::Fixed(q_c.0),
                q_c.1,
                pk.rotated(x, q_c.1.0 as int),
            )
            &&& 0 <= i < m ==> s[rest + c + i] == (
                PolyId::Permutation(i as usize),
                Rotation(0),
                x,
            )
            &&& s[rest + c + m] == (PolyId::Quotient, Rotation(0), x)
            &&& s[rest + c + m + 1] == (PolyId::Random, Rotation(0), x)
        }),
{
    lemma_concatenated(lookups, lookups.len() as int);
}

/// A point of a polynomial is that of the input in its place.
proof fn lemma_point_input<F>(inputs: Seq<(PolyId, F)>, poly: PolyId, n: int, k: int)
    requires
        0 <= n <= usize::MAX,
        0 <= k < points_of(inputs, poly, n).len(),
    ensures
        ({
            let (place, x) = points_of(inputs, poly, n)[k];
            place < n && inputs[place as int] == (poly, x)
        }),
    decreases n,
{
    if k < points_of(inputs, poly, n - 1).len() {
        lemma_point_input(inputs, poly, n - 1, k);
    }
}

/// Law of the groups: whatever stands in a group is an input to its polynomial, in the order of
/// the inputs, and no two groups are of the same polynomial.
pub proof fn lemma_grouped_only<F>(
    inputs: Seq<(PolyId, F)>,
    groups: Seq<EvaluationGroup<F>>,
    g: int,
    j: int,
    h: int,
)
    requires
        grouped(inputs, groups, inputs.len() as int),
        inputs.len() <= usize::MAX,
        0 <= g < groups.len(),
        0 <= j < groups[g].points@.len(),
        0 <= h < groups.len(),
    ensures
        ({
            let (place, x) = groups[g].points@[j];
            &&& place < inputs.len()
            &&& inputs[place as int] == (groups[g].poly, x)
            &&& j > 0 ==> groups[g].points@[j - 1].0 < place
            &&& g != h ==> groups[g].poly != groups[h].poly
        }),
{
    let n = inputs.len() as int;
    lemma_point_input(inputs, groups[g].poly, n, j);
    lemma_point(inputs, groups[g].poly, n, j);
    if g != h {
        let names = groups.map_values(|g: EvaluationGroup<F>| g.poly);
        assert(names[g] != names[h]) by {
            lemma_distinct(inputs, n, g, h);
        }
    }
}

/// Law of the evaluations of groups: they fit where there are as many as points, group by group.
pub proof fn lemma_evaluations_fit<F>(groups: Seq<EvaluationGroup<F>>, evals: Seq<Vec<F>>)
    ensures
        evaluations_fit(groups, evals) == (groups.map_values(
            |g: EvaluationGroup<F>| g.points@.len(),
        ) == evals.map_values(|e: Vec<F>| e@.len())),
{
    let wanted = groups.map_values(|g: EvaluationGroup<F>| g.points@.len());
    let given = evals.map_values(|e: Vec<F>| e@.len());
    if evaluations_fit(groups, evals) {
        assert(wanted =~= given);
    }
    if wanted == given {
        assert(wanted.len() == groups.len());
        assert(given.len() == evals.len());
        assert forall|g: int| 0 <= g < groups.len() implies (#[trigger] evals[g])@.len()
            == groups[g].points@.len() by {
            assert(wanted[g] == given[g]);
        }
    }
}

} // verus!
