//! From the expressions of a lookup to its columns.
use crate::circuit::{have_rows, lemma_pow2_small, Any, Lookup, ProvingKey};
use crate::expression::{cells, compressed, evaluate_expr, evaluate_exprs, Cells, Expression};
use crate::field::{borrow_columns, columns, repeat, slices, values, zeros, PrimeField};
use crate::lookup::{aligned, handle_lookup_pair, padded, sorted};
use crate::parallel::map_indices;
use vstd::arithmetic::div_mod::lemma_small_mod;
use vstd::arithmetic::power2::pow2;
use vstd::prelude::*;

verus! {

/// A constant, or a column in the row itself.
pub open spec fn pure_unit<F>(e: Expression<F>) -> bool {
    match e {
        Expression::Constant(_) => true,
        Expression::Fixed { rotation, .. } => rotation.0 == 0,
        Expression::Advice { rotation, .. } => rotation.0 == 0,
        Expression::Instance { rotation, .. } => rotation.0 == 0,
        _ => false,
    }
}

/// Whether an expression is a constant, or a column in the row itself.
pub fn is_expression_pure_unit<F: PrimeField>(x: &Expression<F>) -> (r: bool)
    ensures
        r == pure_unit(*x),
{
    x.is_constant().is_some() || x.is_pure_fixed().is_some() || x.is_pure_advice().is_some()
        || x.is_pure_instance().is_some()
}

/// How the columns of a lookup are made.
#[derive(Clone, Copy, Debug, PartialEq, Eq, Structural)]
pub enum LookupClass {
    /// One input and one table expression, both to be copied.
    SingleUnit,
    /// One input and one table expression, to be evaluated.
    SingleComp,
    /// Several expressions, to be compressed with a challenge.
    Tuple,
}

pub open spec fn class_of<F>(lookup: Lookup<F>) -> LookupClass {
    if lookup.input_expressions@.len() == 1 && lookup.table_expressions@.len() == 1 {
        if pure_unit(lookup.input_expressions@[0]) && pure_unit(lookup.table_expressions@[0]) {
            LookupClass::SingleUnit
        } else {
            LookupClass::SingleComp
        }
    } else {
        LookupClass::Tuple
    }
}

/// The class of a lookup.
pub fn classify<F: PrimeField>(lookup: &Lookup<F>) -> (r: LookupClass)
    ensures
        r == class_of(*lookup),
{
    if lookup.input_expressions.len() == 1 && lookup.table_expressions.len() == 1 {
        if is_expression_pure_unit(&lookup.input_expressions[0]) && is_expression_pure_unit(
            &lookup.table_expressions[0],
        ) {
            LookupClass::SingleUnit
        } else {
            LookupClass::SingleComp
        }
    } else {
        LookupClass::Tuple
    }
}

/// Of the first `n` lookups, those of a class, each with its index and its buffer, in order.
pub open spec fn members<F, T>(
    lookups: Seq<Lookup<F>>,
    bufs: Seq<T>,
    class: LookupClass,
    n: int,
) -> Seq<(usize, T)>
    decreases n,
{
    if n <= 0 {
        Seq::empty()
    } else if class_of(lookups[n - 1]) == class {
        members(lookups, bufs, class, n - 1).push(((n - 1) as usize, bufs[n - 1]))
    } else {
        members(lookups, bufs, class, n - 1)
    }
}

/// Parts the lookups of a circuit by class, each with its index and its buffer.
pub fn lookup_classify<F: PrimeField, T>(pk: &ProvingKey<F>, lookups_buf: Vec<T>) -> (r: [Vec<
    (usize, T),
>; 3])
    ensures
        ({
            let lookups = pk.cs.lookups@;
            let n = if lookups.len() < lookups_buf@.len() {
                lookups.len() as int
            } else {
                lookups_buf@.len() as int
            };
            &&& r@[0]@ == members(lookups, lookups_buf@, LookupClass::SingleUnit, n)
            &&& r@[1]@ == members(lookups, lookups_buf@, LookupClass::SingleComp, n)
            &&& r@[2]@ == members(lookups, lookups_buf@, LookupClass::Tuple, n)
        }),
{
    let ghost bufs = lookups_buf@;
    let mut single_unit_lookups: Vec<(usize, T)> = Vec::new();
    let mut single_comp_lookups: Vec<(usize, T)> = Vec::new();
    let mut tuple_lookups: Vec<(usize, T)> = Vec::new();
    let mut i: usize = 0;
    let count: usize = pk.cs.lookups.len();
    for buf in iter: lookups_buf
        invariant
            iter.seq() == bufs,
            count == pk.cs.lookups@.len(),
            i == if iter.index() < count {
                iter.index() as int
            } else {
                count as int
            },
            single_unit_lookups@ == members(
                pk.cs.lookups@,
                bufs,
                LookupClass::SingleUnit,
                i as int,
            ),
            single_comp_lookups@ == members(
                pk.cs.lookups@,
                bufs,
                LookupClass::SingleComp,
                i as int,
            ),
            tuple_lookups@ == members(pk.cs.lookups@, bufs, LookupClass::Tuple, i as int),
    {
        if i < count {
            match classify(&pk.cs.lookups[i]) {
                LookupClass::SingleUnit => single_unit_lookups.push((i, buf)),
                LookupClass::SingleComp => single_comp_lookups.push((i, buf)),
                LookupClass::Tuple => tuple_lookups.push((i, buf)),
            }
            i += 1;
        }
    }
    [single_unit_lookups, single_comp_lookups, tuple_lookups]
}

/// Law of the classes: a member of a class is a lookup of that class with its own buffer, and
/// members stand in the order of their indices.
pub proof fn lemma_members<F, T>(
    lookups: Seq<Lookup<F>>,
    bufs: Seq<T>,
    class: LookupClass,
    n: int,
    k: int,
)
    requires
        0 <= n <= usize::MAX,
        0 <= k < members(lookups, bufs, class, n).len(),
    ensures
        ({
            let m = members(lookups, bufs, class, n);
            let i = m[k].0 as int;
            &&& i < n
            &&& class_of(lookups[i]) == class
            &&& m[k].1 == bufs[i]
            &&& k > 0 ==> m[k - 1].0 < i
        }),
    decreases n,
{
    let before = members(lookups, bufs, class, n - 1);
    if k < before.len() {
        lemma_members(lookups, bufs, class, n - 1, k);
    } else if k > 0 {
        lemma_members(lookups, bufs, class, n - 1, k - 1);
    }
}

/// The column that a unit expression stands for.
pub open spec fn unit_column<F: PrimeField>(e: Expression<F>, c: Cells, len: nat) -> Seq<nat> {
    match e {
        Expression::Constant(x) => Seq::new(len, |row: int| x.value()),
        Expression::Fixed { column_index, .. } => c.fixed[column_index as int],
        Expression::Advice { column_index, .. } => c.advice[column_index as int],
        Expression::Instance { column_index, .. } => c.instance[column_index as int],
        _ => Seq::empty(),
    }
}

/// Whether the column that a unit expression names is there and has `len` rows.
pub open spec fn unit_reaches<F>(e: Expression<F>, c: Cells, len: nat) -> bool {
    match e {
        Expression::Fixed { column_index, .. } => column_index < c.fixed.len()
            && c.fixed[column_index as int].len() == len,
        Expression::Advice { column_index, .. } => column_index < c.advice.len()
            && c.advice[column_index as int].len() == len,
        Expression::Instance { column_index, .. } => column_index < c.instance.len()
            && c.instance[column_index as int].len() == len,
        _ => true,
    }
}

/// Law of the unit expressions: copying the column gives what evaluating the expression gives.
pub proof fn lemma_unit_is_evaluation<F: PrimeField>(e: Expression<F>, c: Cells, row: int)
    requires
        pure_unit(e),
        0 <= row < c.size,
        unit_reaches(e, c, c.size as nat),
    ensures
        unit_column(e, c, c.size as nat)[row] == e.value_at(c, row),
{
    lemma_small_mod(row as nat, c.size as nat);
    assert(0 * c.rot_scale == 0) by (nonlinear_arith);
}

/// Copies one column over another.
fn copy_rows<F: PrimeField>(source: &[F], target: &mut [F])
    requires
        source@.len() == old(target)@.len(),
    ensures
        final(target)@ == source@,
{
    let len: usize = target.len();
    for i in 0..len
        invariant
            len == source@.len(),
            len == target@.len(),
            forall|k: int| 0 <= k < i ==> #[trigger] target@[k] == source@[k],
    {
        target[i] = source[i];
    }
    assert(target@ =~= source@);
}

/// Fills a column with what a unit expression stands for.
pub fn fill_unit<F: PrimeField>(
    expression: &Expression<F>,
    fixed: &[&[F]],
    advice: &[&[F]],
    instance: &[&[F]],
    target: &mut [F],
)
    requires
        pure_unit(*expression),
        unit_reaches(
            *expression,
            cells(0, 1, fixed@, advice@, instance@),
            old(target)@.len(),
        ),
    ensures
        values(final(target)@) == unit_column(
            *expression,
            cells(0, 1, fixed@, advice@, instance@),
            old(target)@.len(),
        ),
{
    match expression {
        Expression::Constant(x) => {
            let len: usize = target.len();
            for i in 0..len
                invariant
                    len == target@.len(),
                    forall|k: int| 0 <= k < i ==> #[trigger] target@[k] == *x,
            {
                target[i] = *x;
            }
            assert(values(target@) =~= Seq::new(len as nat, |row: int| x.value()));
        },
        Expression::Fixed { column_index, .. } => copy_rows(fixed[*column_index], target),
        Expression::Advice { column_index, .. } => copy_rows(advice[*column_index], target),
        Expression::Instance { column_index, .. } => copy_rows(instance[*column_index], target),
        _ => {},
    }
}

/// The columns of one lookup.
#[derive(Debug)]
pub struct LookupColumns<F> {
    pub permuted_input: Vec<F>,
    pub permuted_table: Vec<F>,
    pub input: Vec<F>,
    pub table: Vec<F>,
    pub product: Vec<F>,
}

/// Row by row, the expressions compressed with `theta`.
pub open spec fn compressed_column<F: PrimeField>(
    theta: nat,
    es: Seq<Expression<F>>,
    c: Cells,
) -> Seq<nat> {
    Seq::new(c.size as nat, |row: int| compressed(theta, 0, es, c, row))
}

/// A value of a circuit cell or of an expression over such cells is a residue.
proof fn lemma_value_bound<F: PrimeField>(e: Expression<F>, c: Cells, row: int)
    requires
        e.defined_at(c, row),
        residues(F::modulus(), c.fixed),
        residues(F::modulus(), c.advice),
        residues(F::modulus(), c.instance),
    ensures
        e.value_at(c, row) < F::modulus(),
{
    F::lemma_modulus();
    match e {
        Expression::Constant(x) => {
            x.lemma_value();
        },
        Expression::Fixed { column_index, rotation, .. } => {
            assert(c.fixed[column_index as int][c.rotated(row, rotation)] < F::modulus());
        },
        Expression::Advice { column_index, rotation, .. } => {
            assert(c.advice[column_index as int][c.rotated(row, rotation)] < F::modulus());
        },
        Expression::Instance { column_index, rotation, .. } => {
            assert(c.instance[column_index as int][c.rotated(row, rotation)] < F::modulus());
        },
        _ => {},
    }
}

spec fn residues(p: nat, cols: Seq<Seq<nat>>) -> bool {
    forall|c: int, row: int|
        0 <= c < cols.len() && 0 <= row < cols[c].len() ==> #[trigger] cols[c][row] < p
}

proof fn lemma_residues<F: PrimeField>(cols: Seq<&[F]>)
    ensures
        residues(F::modulus(), slices(cols)),
{
    assert forall|c: int, row: int|
        0 <= c < slices(cols).len() && 0 <= row < slices(cols)[c].len() implies #[trigger] slices(
        cols,
    )[c][row] < F::modulus() by {
        cols[c]@[row].lemma_value();
    }
}

/// Law of compression: a single expression is compressed to itself, whatever the challenge.
pub proof fn lemma_single_is_compressed<F: PrimeField>(
    theta: nat,
    e: Expression<F>,
    es: Seq<Expression<F>>,
    c: Cells,
    row: int,
)
    requires
        es == seq![e],
        e.value_at(c, row) < F::modulus(),
    ensures
        compressed(theta, 0, es, c, row) == e.value_at(c, row),
{
    F::lemma_modulus();
    assert(es.drop_last() =~= Seq::empty());
    assert(compressed(theta, 0, es.drop_last(), c, row) == 0);
    assert(0 * theta == 0) by (nonlinear_arith);
    lemma_small_mod(0, F::modulus());
    lemma_small_mod(e.value_at(c, row), F::modulus());
}

/// Law of the classes: the columns of a lookup with single expressions do not depend on the
/// challenge, so they can be made before it is known.
pub proof fn lemma_single_ignores_theta<F: PrimeField>(
    es: Seq<Expression<F>>,
    c: Cells,
    theta: nat,
    other: nat,
)
    requires
        es.len() == 1,
    ensures
        compressed_column(theta, es, c) == compressed_column(other, es, c),
{
    assert forall|row: int| #[trigger]
        compressed(theta, 0, es, c, row) == compressed(other, 0, es, c, row) by {
        assert(es.drop_last() =~= Seq::empty());
        assert(compressed(theta, 0, es.drop_last(), c, row) == 0);
        assert(compressed(other, 0, es.drop_last(), c, row) == 0);
        assert(0 * theta == 0 * other) by (nonlinear_arith);
    }
    assert(compressed_column(theta, es, c) =~= compressed_column(other, es, c));
}

/// The column that one side of a lookup is compressed to, made as its class asks.
fn lookup_column<F: PrimeField>(
    class: LookupClass,
    expressions: &Vec<Expression<F>>,
    size: usize,
    fixed: &[&[F]],
    advice: &[&[F]],
    instance: &[&[F]],
    theta: F,
) -> (r: Vec<F>)
    requires
        0 < size <= i32::MAX,
        forall|i: int| 0 <= i < fixed@.len() ==> (#[trigger] fixed@[i])@.len() == size,
        forall|i: int| 0 <= i < advice@.len() ==> (#[trigger] advice@[i])@.len() == size,
        forall|i: int| 0 <= i < instance@.len() ==> (#[trigger] instance@[i])@.len() == size,
        forall|i: int|
            0 <= i < expressions@.len() ==> #[trigger] expressions@[i].supported(
                fixed@.len(),
                advice@.len(),
                instance@.len(),
                size as nat,
            ),
        class != LookupClass::Tuple ==> expressions@.len() == 1,
        class == LookupClass::SingleUnit ==> pure_unit(expressions@[0]),
    ensures
        r@.len() == size,
        values(r@) == compressed_column(
            theta.value(),
            expressions@,
            cells(size, 1, fixed@, advice@, instance@),
        ),
{
    let ghost c = cells(size, 1, fixed@, advice@, instance@);
    let mut r = repeat(F::zero(), size);
    proof {
        assert forall|k: int, row: int|
            0 <= k < expressions@.len() && 0 <= row
                < size implies #[trigger] expressions@[k].defined_at(c, row) by {
            expressions@[k].lemma_supported(c, row);
        }
        lemma_residues(fixed@);
        lemma_residues(advice@);
        lemma_residues(instance@);
        if expressions@.len() == 1 {
            assert(expressions@ =~= seq![expressions@[0]]);
            assert forall|row: int| 0 <= row < size implies #[trigger] compressed(
                theta.value(),
                0,
                expressions@,
                c,
                row,
            ) == expressions@[0].value_at(c, row) by {
                lemma_value_bound(expressions@[0], c, row);
                lemma_single_is_compressed(theta.value(), expressions@[0], expressions@, c, row);
            }
        }
    }
    match class {
        LookupClass::SingleUnit => {
            proof {
                let e = expressions@[0];
                assert(e.supported(fixed@.len(), advice@.len(), instance@.len(), size as nat));
                assert(unit_reaches(e, c, size as nat));
            }
            fill_unit(&expressions[0], fixed, advice, instance, r.as_mut_slice());
            proof {
                assert forall|row: int| 0 <= row < size implies #[trigger] values(r@)[row]
                    == compressed(theta.value(), 0, expressions@, c, row) by {
                    lemma_unit_is_evaluation(expressions@[0], c, row);
                }
            }
        },
        LookupClass::SingleComp => {
            evaluate_expr(&expressions[0], size, 1, fixed, advice, instance, r.as_mut_slice());
        },
        LookupClass::Tuple => {
            evaluate_exprs(
                expressions.as_slice(),
                size,
                1,
                fixed,
                advice,
                instance,
                theta,
                r.as_mut_slice(),
            );
        },
    }
    assert(values(r@).len() == r@.len());
    assert(values(r@) =~= compressed_column(theta.value(), expressions@, c));
    r
}

/// The cells of a circuit, as values.
pub open spec fn circuit_cells<F: PrimeField>(
    pk: ProvingKey<F>,
    advice: Seq<Vec<F>>,
    instance: Seq<Vec<F>>,
) -> Cells {
    Cells {
        size: pk.spec_size() as int,
        rot_scale: 1,
        fixed: columns(pk.fixed_values@),
        advice: columns(advice),
        instance: columns(instance),
    }
}

impl<F: PrimeField> LookupColumns<F> {
    /// All columns have `size` rows.
    pub open spec fn has_rows(self, size: nat) -> bool {
        &&& self.permuted_input@.len() == size
        &&& self.permuted_table@.len() == size
        &&& self.input@.len() == size
        &&& self.table@.len() == size
        &&& self.product@.len() == size
    }

    /// The columns of lookup `i`, before its product is known: the compressed expressions, and
    /// what permuting makes of them.
    pub open spec fn is_built(self, pk: ProvingKey<F>, theta: nat, c: Cells, i: int) -> bool {
        let lookup = pk.cs.lookups@[i];
        let last = pk.spec_unusable_rows_start();
        let a = sorted::<F>(values(self.input@).take(last));
        let s = sorted::<F>(values(self.table@).take(last));
        &&& self.has_rows(pk.spec_size())
        &&& values(self.input@) == compressed_column(theta, lookup.input_expressions@, c)
        &&& values(self.table@) == compressed_column(theta, lookup.table_expressions@, c)
        &&& values(self.permuted_input@) == padded(a, pk.spec_size())
        &&& values(self.permuted_table@) == padded(aligned(a, s), pk.spec_size())
        &&& values(self.product@) == zeros(pk.spec_size())
    }
}

/// Whether the tuple of inputs in `row` is the tuple of the table in `other`.
pub open spec fn tuples_agree<F: PrimeField>(
    lookup: Lookup<F>,
    c: Cells,
    row: int,
    other: int,
) -> bool {
    &&& lookup.input_expressions@.len() == lookup.table_expressions@.len()
    &&& forall|k: int|
        0 <= k < lookup.input_expressions@.len() ==> (
        #[trigger] lookup.input_expressions@[k]).value_at(c, row)
            == lookup.table_expressions@[k].value_at(c, other)
}

/// Whether the tuple of inputs in `row` is one of the table in the first `last` rows.
pub open spec fn occurs<F: PrimeField>(lookup: Lookup<F>, c: Cells, last: int, row: int) -> bool {
    exists|other: int| 0 <= other < last && #[trigger] tuples_agree(lookup, c, row, other)
}

/// Whether every tuple of inputs in the first `last` rows is one of the table in these rows.
pub open spec fn satisfied<F: PrimeField>(lookup: Lookup<F>, c: Cells, last: int) -> bool {
    forall|row: int| 0 <= row < last ==> #[trigger] occurs(lookup, c, last, row)
}

proof fn lemma_equal_tuples<F: PrimeField>(
    theta: nat,
    a: Seq<Expression<F>>,
    b: Seq<Expression<F>>,
    c: Cells,
    row: int,
    other: int,
)
    requires
        a.len() == b.len(),
        forall|k: int|
            0 <= k < a.len() ==> (#[trigger] a[k]).value_at(c, row) == b[k].value_at(c, other),
    ensures
        compressed(theta, 0, a, c, row) == compressed(theta, 0, b, c, other),
    decreases a.len(),
{
    if a.len() > 0 {
        assert forall|k: int| 0 <= k < a.len() - 1 implies (#[trigger] a.drop_last()[k]).value_at(
            c,
            row,
        ) == b.drop_last()[k].value_at(c, other) by {
            assert(a[k].value_at(c, row) == b[k].value_at(c, other));
        }
        lemma_equal_tuples(theta, a.drop_last(), b.drop_last(), c, row, other);
        assert(a[a.len() - 1].value_at(c, row) == b[a.len() - 1].value_at(c, other));
    }
}

/// Law of compression: where every tuple of inputs is one of the table, every compressed input is
/// a compressed table entry, whatever the challenge.
pub proof fn lemma_satisfied_is_contained<F: PrimeField>(
    lookup: Lookup<F>,
    theta: nat,
    c: Cells,
    last: int,
    row: int,
)
    requires
        satisfied(lookup, c, last),
        0 <= row < last <= c.size,
    ensures
        compressed_column(theta, lookup.table_expressions@, c).take(last).contains(
            compressed_column(theta, lookup.input_expressions@, c)[row],
        ),
{
    assert(occurs(lookup, c, last, row));
    let other = choose|other: int|
        0 <= other < last && #[trigger] tuples_agree(lookup, c, row, other);
    lemma_equal_tuples(
        theta,
        lookup.input_expressions@,
        lookup.table_expressions@,
        c,
        row,
        other,
    );
    let table = compressed_column(theta, lookup.table_expressions@, c).take(last);
    assert(table[other] == compressed_column(theta, lookup.input_expressions@, c)[row]);
}

/// Whether the columns of a circuit are complete.
pub open spec fn complete<F: PrimeField>(
    pk: ProvingKey<F>,
    advice: Seq<Vec<F>>,
    instance: Seq<Vec<F>>,
) -> bool {
    &&& advice.len() >= pk.cs.num_advice_columns
    &&& instance.len() == pk.cs.num_instance_columns
    &&& have_rows(advice, pk.spec_size())
    &&& have_rows(instance, pk.spec_size())
}

/// Makes the columns of one lookup.
fn build_lookup<F: PrimeField>(
    pk: &ProvingKey<F>,
    i: usize,
    theta: F,
    fixed: &Vec<&[F]>,
    advice: &Vec<&[F]>,
    instance: &Vec<&[F]>,
) -> (r: LookupColumns<F>)
    requires
        pk.valid(),
        i < pk.cs.lookups@.len(),
        fixed@.len() == pk.column_count(Any::Fixed),
        advice@.len() >= pk.column_count(Any::Advice),
        instance@.len() == pk.column_count(Any::Instance),
        forall|k: int| 0 <= k < fixed@.len() ==> (#[trigger] fixed@[k])@.len() == pk.spec_size(),
        forall|k: int| 0 <= k < advice@.len() ==> (#[trigger] advice@[k])@.len() == pk.spec_size(),
        forall|k: int|
            0 <= k < instance@.len() ==> (#[trigger] instance@[k])@.len() == pk.spec_size(),
    ensures
        r.is_built(
            *pk,
            theta.value(),
            Cells {
                size: pk.spec_size() as int,
                rot_scale: 1,
                fixed: slices(fixed@),
                advice: slices(advice@),
                instance: slices(instance@),
            },
            i as int,
        ),
{
    proof {
        lemma_pow2_small(pk.k as nat);
    }
    let size: usize = pk.size();
    let last: usize = pk.unusable_rows_start();
    let lookup = &pk.cs.lookups[i];
    let class = classify(lookup);
    proof {
        assert(pk.supports_all(lookup.input_expressions@));
        assert(pk.supports_all(lookup.table_expressions@));
        assert forall|k: int|
            0 <= k
                < lookup.input_expressions@.len() implies #[trigger] lookup.input_expressions@[k]
            .supported(fixed@.len(), advice@.len(), instance@.len(), size as nat) by {
            assert(pk.supports(lookup.input_expressions@[k]));
            lookup.input_expressions@[k].lemma_more_advice(
                fixed@.len(),
                pk.column_count(Any::Advice),
                advice@.len(),
                instance@.len(),
                size as nat,
            );
        }
        assert forall|k: int|
            0 <= k
                < lookup.table_expressions@.len() implies #[trigger] lookup.table_expressions@[k]
            .supported(fixed@.len(), advice@.len(), instance@.len(), size as nat) by {
            assert(pk.supports(lookup.table_expressions@[k]));
            lookup.table_expressions@[k].lemma_more_advice(
                fixed@.len(),
                pk.column_count(Any::Advice),
                advice@.len(),
                instance@.len(),
                size as nat,
            );
        }
    }
    let input = lookup_column(
        class,
        &lookup.input_expressions,
        size,
        fixed.as_slice(),
        advice.as_slice(),
        instance.as_slice(),
        theta,
    );
    let table = lookup_column(
        class,
        &lookup.table_expressions,
        size,
        fixed.as_slice(),
        advice.as_slice(),
        instance.as_slice(),
        theta,
    );
    let (permuted_input, permuted_table) = handle_lookup_pair(&input, &table, last);
    let product = repeat(F::zero(), size);
    assert(values(product@) =~= zeros(size as nat));
    LookupColumns { permuted_input, permuted_table, input, table, product }
}

/// Makes the columns of all lookups of a circuit.
pub fn build_lookups<F: PrimeField>(
    pk: &ProvingKey<F>,
    theta: F,
    advice: &Vec<Vec<F>>,
    instance: &Vec<Vec<F>>,
) -> (r: Vec<LookupColumns<F>>)
    requires
        pk.valid(),
        complete(*pk, advice@, instance@),
    ensures
        r@.len() == pk.cs.lookups@.len(),
        forall|i: int|
            0 <= i < r@.len() ==> (#[trigger] r@[i]).is_built(
                *pk,
                theta.value(),
                circuit_cells(*pk, advice@, instance@),
                i,
            ),
{
    let fixed_ref = borrow_columns(&pk.fixed_values);
    let advice_ref = borrow_columns(advice);
    let instance_ref = borrow_columns(instance);
    let build = |i: usize| -> (l: LookupColumns<F>)
        requires
            i < pk.cs.lookups@.len(),
        ensures
            l.is_built(
                *pk,
                theta.value(),
                circuit_cells(*pk, advice@, instance@),
                i as int,
            ),
    { build_lookup(pk, i, theta, &fixed_ref, &advice_ref, &instance_ref) };
    map_indices(pk.cs.lookups.len(), build)
}

/// How many of the first `i` lookups are of a class.
pub open spec fn rank<F>(lookups: Seq<Lookup<F>>, class: LookupClass, i: int) -> nat
    decreases i,
{
    if i <= 0 {
        0
    } else if class_of(lookups[i - 1]) == class {
        rank(lookups, class, i - 1) + 1
    } else {
        rank(lookups, class, i - 1)
    }
}

/// Law of the classes: every lookup is a member of its class, with its buffer, in the place that
/// its rank gives.
pub proof fn lemma_rank<F, T>(lookups: Seq<Lookup<F>>, bufs: Seq<T>, n: int, i: int)
    requires
        0 <= i < n <= usize::MAX,
    ensures
        ({
            let class = class_of(lookups[i]);
            &&& rank(lookups, class, i) < members(lookups, bufs, class, n).len()
            &&& members(lookups, bufs, class, n)[rank(lookups, class, i) as int] == (
                i as usize,
                bufs[i],
            )
        }),
    decreases n,
{
    if i < n - 1 {
        lemma_rank(lookups, bufs, n - 1, i);
    } else {
        lemma_member_count(lookups, bufs, class_of(lookups[i]), n - 1);
    }
}

/// A class has as many members as its rank says.
pub proof fn lemma_member_count<F, T>(
    lookups: Seq<Lookup<F>>,
    bufs: Seq<T>,
    class: LookupClass,
    n: int,
)
    ensures
        members(lookups, bufs, class, n).len() == rank(lookups, class, n),
    decreases n,
{
    if n > 0 {
        lemma_member_count(lookups, bufs, class, n - 1);
    }
}

/// Law of the units: a constant, or a column that is not rotated.
pub proof fn lemma_pure_unit<F>(e: Expression<F>)
    ensures
        e is Constant ==> pure_unit(e),
        e matches Expression::Fixed { rotation, .. } ==> (pure_unit(e) <==> rotation.0 == 0),
        e matches Expression::Advice { rotation, .. } ==> (pure_unit(e) <==> rotation.0 == 0),
        e matches Expression::Instance { rotation, .. } ==> (pure_unit(e) <==> rotation.0 == 0),
        e is Selector || e is Negated || e is Sum || e is Product || e is Scaled ==> !pure_unit(e),
{
}

/// Law of the classes: a lookup is a tuple unless it has one input and one table expression; then
/// it is a unit where both are.
pub proof fn lemma_class<F>(lookup: Lookup<F>)
    ensures
        ({
            let single = lookup.input_expressions@.len() == 1 && lookup.table_expressions@.len()
                == 1;
            let units = pure_unit(lookup.input_expressions@[0]) && pure_unit(
                lookup.table_expressions@[0],
            );
            &&& !single <==> class_of(lookup) == LookupClass::Tuple
            &&& single && units <==> class_of(lookup) == LookupClass::SingleUnit
            &&& single && !units <==> class_of(lookup) == LookupClass::SingleComp
        }),
{
}

/// Law of the classes: of the first `n` lookups, each is in its own class, at the returned place,
/// and the classes together hold no more than these.
pub proof fn lemma_classes_part<F, T>(lookups: Seq<Lookup<F>>, bufs: Seq<T>, n: int, i: int) -> (
k: int)
    requires
        0 <= i < n <= usize::MAX,
    ensures
        ({
            let own = members(lookups, bufs, class_of(lookups[i]), n);
            &&& 0 <= k < own.len()
            &&& own[k] == (i as usize, bufs[i])
        }),
        members(lookups, bufs, LookupClass::SingleUnit, n).len() + members(
            lookups,
            bufs,
            LookupClass::SingleComp,
            n,
        ).len() + members(lookups, bufs, LookupClass::Tuple, n).len() == n,
{
    lemma_rank(lookups, bufs, n, i);
    lemma_all_members(lookups, bufs, n);
    rank(lookups, class_of(lookups[i]), i) as int
}

proof fn lemma_all_members<F, T>(lookups: Seq<Lookup<F>>, bufs: Seq<T>, n: int)
    requires
        0 <= n,
    ensures
        members(lookups, bufs, LookupClass::SingleUnit, n).len() + members(
            lookups,
            bufs,
            LookupClass::SingleComp,
            n,
        ).len() + members(lookups, bufs, LookupClass::Tuple, n).len() == n,
    decreases n,
{
    if n > 0 {
        lemma_all_members(lookups, bufs, n - 1);
    }
}

/// Law of the unit columns: as many rows as there are to fill, each with the value of the constant
/// or of the column.
pub proof fn lemma_unit_column<F: PrimeField>(e: Expression<F>, c: Cells, len: nat, row: int)
    requires
        pure_unit(e),
        unit_reaches(e, c, len),
    ensures
        unit_column(e, c, len).len() == len,
        0 <= row < len ==> match e {
            Expression::Constant(x) => unit_column(e, c, len)[row] == x.value(),
            Expression::Fixed { column_index, .. } => column_index < c.fixed.len() && unit_column(
                e,
                c,
                len,
            )[row] == c.fixed[column_index as int][row],
            Expression::Advice { column_index, .. } => column_index < c.advice.len()
                && unit_column(e, c, len)[row] == c.advice[column_index as int][row],
            Expression::Instance { column_index, .. } => column_index < c.instance.len()
                && unit_column(e, c, len)[row] == c.instance[column_index as int][row],
            _ => false,
        },
{
}

/// Law of the cells of a circuit: the columns of the key and those that were given, by kind,
/// column and row, and rotations that are not scaled.
pub proof fn lemma_circuit_cells<F: PrimeField>(
    pk: ProvingKey<F>,
    advice: Seq<Vec<F>>,
    instance: Seq<Vec<F>>,
    i: int,
    row: int,
)
    ensures
        ({
            let c = circuit_cells(pk, advice, instance);
            let fixed = pk.fixed_values@;
            &&& c.size == pow2(pk.k as nat)
            &&& c.rot_scale == 1
            &&& c.fixed.len() == fixed.len()
            &&& c.advice.len() == advice.len()
            &&& c.instance.len() == instance.len()
            &&& 0 <= i < fixed.len() ==> c.fixed[i].len() == fixed[i]@.len()
            &&& 0 <= i < advice.len() ==> c.advice[i].len() == advice[i]@.len()
            &&& 0 <= i < instance.len() ==> c.instance[i].len() == instance[i]@.len()
            &&& 0 <= i < fixed.len() && 0 <= row < fixed[i]@.len() ==> c.fixed[i][row]
                == fixed[i]@[row].value()
            &&& 0 <= i < advice.len() && 0 <= row < advice[i]@.len() ==> c.advice[i][row]
                == advice[i]@[row].value()
            &&& 0 <= i < instance.len() && 0 <= row < instance[i]@.len() ==> c.instance[i][row]
                == instance[i]@[row].value()
        }),
{
}

/// Law of completeness: all that the circuit asks of columns is that there are enough advice
/// columns and as many instance columns as it has, with all rows.
pub proof fn lemma_complete<F: PrimeField>(
    pk: ProvingKey<F>,
    advice: Seq<Vec<F>>,
    instance: Seq<Vec<F>>,
)
    requires
        advice.len() >= pk.cs.num_advice_columns,
        instance.len() == pk.cs.num_instance_columns,
        forall|i: int| 0 <= i < advice.len() ==> (#[trigger] advice[i])@.len() == pow2(pk.k as nat),
        forall|i: int|
            0 <= i < instance.len() ==> (#[trigger] instance[i])@.len() == pow2(pk.k as nat),
    ensures
        complete(pk, advice, instance),
{
}

} // verus!
