//! The product columns of a circuit: one for each lookup, and those of its permutation argument.
use crate::circuit::{lemma_pow2_small, Any, Column, ProvingKey};
use crate::expression::{compressed, Cells};
use crate::field::{borrow_columns, slices, values, PrimeField};
use crate::grand_product::nonzero_rows;
use crate::lookup::{
    aligned, lemma_lookup_is_permutation, lemma_lookup_rows_agree, lemma_padded, lemma_sorted,
    lemma_sorted_by_words, padded, sorted,
};
use crate::lookup_columns::{
    circuit_cells, complete, lemma_satisfied_is_contained, satisfied, LookupColumns,
};
use crate::lookup_product::{
    column_terms, is_lookup_product, lemma_lookup_identity, lookup_product, same_rows,
};
use crate::parallel::map_indices;
use crate::permutation::{argument, is_product, permutation_products, Argument};
use vstd::arithmetic::power2::pow2;
use vstd::prelude::*;

verus! {

impl<F: PrimeField> LookupColumns<F> {
    /// `next` is this lookup with its product filled in.
    pub open spec fn filled(self, beta: F, gamma: F, last: int, next: LookupColumns<F>) -> bool {
        &&& next == (LookupColumns { product: next.product, ..self })
        &&& is_lookup_product(
            beta,
            gamma,
            self.input@,
            self.table@,
            self.permuted_input@,
            self.permuted_table@,
            last,
            next.product@,
        )
    }
}

/// Law of the lookups: where every tuple of inputs in the usable rows is one of the table in these
/// rows, the product of the lookup is back at one in the first row left to blinding, unless a
/// denominator is zero.
pub proof fn lemma_lookup_closes<F: PrimeField>(
    pk: ProvingKey<F>,
    theta: nat,
    beta: F,
    gamma: F,
    c: Cells,
    i: int,
    before: LookupColumns<F>,
    after: LookupColumns<F>,
)
    requires
        pk.valid(),
        before.is_built(pk, theta, c, i),
        before.filled(beta, gamma, pk.spec_unusable_rows_start(), after),
        satisfied(pk.cs.lookups@[i], c, pk.spec_unusable_rows_start()),
        c.size == pk.spec_size(),
        nonzero_rows(
            column_terms(beta, gamma, before.permuted_input@, before.permuted_table@),
            pk.spec_unusable_rows_start(),
        ),
    ensures
        values(after.product@)[pk.spec_unusable_rows_start()] == 1,
{
    let last = pk.spec_unusable_rows_start();
    let input = values(before.input@).take(last);
    let table = values(before.table@).take(last);
    let a = sorted::<F>(input);
    let b = aligned(a, sorted::<F>(table));
    assert forall|k: int| 0 <= k < input.len() implies table.contains(#[trigger] input[k]) by {
        lemma_satisfied_is_contained(pk.cs.lookups@[i], theta, c, last, k);
    }
    lemma_lookup_is_permutation::<F>(input, table);
    lemma_sorted::<F>(input);
    lemma_sorted::<F>(table);
    assert(b.len() == last) by {
        b.to_multiset_ensures();
        table.to_multiset_ensures();
    }
    assert(padded(a, pk.spec_size()).take(last) =~= a);
    assert(padded(b, pk.spec_size()).take(last) =~= b);
    assert(same_rows(values(before.permuted_input@), values(before.input@), last));
    assert(same_rows(values(before.permuted_table@), values(before.table@), last));
}

/// Fills in the products of all lookups.
pub fn fill_lookup_products<F: PrimeField>(
    pk: &ProvingKey<F>,
    beta: F,
    gamma: F,
    lookups: &mut Vec<LookupColumns<F>>,
)
    requires
        pk.valid(),
        forall|i: int|
            0 <= i < old(lookups)@.len() ==> (#[trigger] old(lookups)@[i]).has_rows(pk.spec_size()),
    ensures
        final(lookups)@.len() == old(lookups)@.len(),
        forall|i: int|
            0 <= i < old(lookups)@.len() ==> old(lookups)@[i].filled(
                beta,
                gamma,
                pk.spec_unusable_rows_start(),
                #[trigger] final(lookups)@[i],
            ),
{
    proof {
        lemma_pow2_small(pk.k as nat);
    }
    let last: usize = pk.unusable_rows_start();
    let count: usize = lookups.len();
    let products = lookup_products(beta, gamma, lookups, last);
    let ghost before = lookups@;
    let ghost made = products@;
    let mut i: usize = 0;
    for product in iter: products
        invariant
            iter.seq() == made,
            i == iter.index(),
            made.len() == before.len(),
            lookups@.len() == before.len(),
            count == before.len(),
            forall|k: int|
                0 <= k < i ==> #[trigger] lookups@[k] == (LookupColumns {
                    product: made[k],
                    ..before[k]
                }),
            forall|k: int| i <= k < before.len() ==> #[trigger] lookups@[k] == before[k],
    {
        lookups[i].product = product;
        i += 1;
    }
}

/// The product of each lookup.
fn lookup_products<F: PrimeField>(
    beta: F,
    gamma: F,
    lookups: &Vec<LookupColumns<F>>,
    last: usize,
) -> (r: Vec<Vec<F>>)
    requires
        forall|i: int|
            0 <= i < lookups@.len() ==> last < (#[trigger] lookups@[i]).input@.len()
                && lookups@[i].has_rows(lookups@[i].input@.len()),
    ensures
        r@.len() == lookups@.len(),
        forall|i: int|
            0 <= i < lookups@.len() ==> is_lookup_product(
                beta,
                gamma,
                lookups@[i].input@,
                lookups@[i].table@,
                lookups@[i].permuted_input@,
                lookups@[i].permuted_table@,
                last as int,
                (#[trigger] r@[i])@,
            ),
{
    let make = |i: usize| -> (z: Vec<F>)
        requires
            i < lookups@.len(),
        ensures
            is_lookup_product(
                beta,
                gamma,
                lookups@[i as int].input@,
                lookups@[i as int].table@,
                lookups@[i as int].permuted_input@,
                lookups@[i as int].permuted_table@,
                last as int,
                z@,
            ),
    {
        let l = &lookups[i];
        lookup_product(
            beta,
            gamma,
            &l.input,
            &l.table,
            &l.permuted_input,
            &l.permuted_table,
            last,
        )
    };
    map_indices(lookups.len(), make)
}

/// A column among the cells of a circuit.
pub open spec fn column_cells(c: Cells, column: Column) -> Seq<nat> {
    match column.column_type {
        Any::Advice => c.advice[column.index as int],
        Any::Fixed => c.fixed[column.index as int],
        Any::Instance => c.instance[column.index as int],
    }
}

/// The permutation argument of a circuit over its cells.
pub open spec fn circuit_argument<F: PrimeField>(
    pk: ProvingKey<F>,
    beta: F,
    gamma: F,
    c: Cells,
) -> Argument {
    Argument {
        p: F::modulus(),
        beta: beta.value(),
        gamma: gamma.value(),
        delta: F::delta_value(),
        omega: pk.omega.value(),
        size: pk.spec_size(),
        cells: pk.cs.permutation_columns@.map_values(|column: Column| column_cells(c, column)),
        images: crate::field::columns(pk.permutations@),
    }
}

/// The products of the permutation argument of a circuit.
pub fn circuit_permutation_products<F: PrimeField>(
    pk: &ProvingKey<F>,
    beta: F,
    gamma: F,
    advice: &Vec<Vec<F>>,
    instance: &Vec<Vec<F>>,
) -> (r: Vec<Vec<F>>)
    requires
        pk.valid(),
        complete(*pk, advice@, instance@),
    ensures
        is_product(
            circuit_argument(*pk, beta, gamma, circuit_cells(*pk, advice@, instance@)),
            pk.cs.degree - 2,
            pk.spec_unusable_rows_start(),
            r@,
        ),
{
    proof {
        lemma_pow2_small(pk.k as nat);
        F::lemma_modulus();
    }
    let ghost c = circuit_cells(*pk, advice@, instance@);
    let mut cells: Vec<&[F]> = Vec::new();
    for i in 0..pk.cs.permutation_columns.len()
        invariant
            pk.valid(),
            complete(*pk, advice@, instance@),
            c == circuit_cells(*pk, advice@, instance@),
            cells@.len() == i,
            forall|k: int|
                0 <= k < i ==> values((#[trigger] cells@[k])@) == column_cells(
                    c,
                    pk.cs.permutation_columns@[k],
                ) && cells@[k]@.len() == pk.spec_size(),
    {
        let column = pk.cs.permutation_columns[i];
        let source = match column.column_type {
            Any::Advice => &advice[column.index],
            Any::Fixed => &pk.fixed_values[column.index],
            Any::Instance => &instance[column.index],
        };
        assert(source@.len() == pk.spec_size());
        cells.push(source.as_slice());
    }
    let images = borrow_columns(&pk.permutations);
    let ghost a = circuit_argument(*pk, beta, gamma, c);
    proof {
        assert(slices(cells@) =~= a.cells);
        assert(slices(images@) == a.images);
        assert forall|k: int| 0 <= k < a.cells.len() implies (#[trigger] a.cells[k]).len() == a.size
            && a.images[k].len() == a.size by {
            assert(slices(cells@)[k] == values(cells@[k]@));
            assert(pk.permutations@[k]@.len() == pk.spec_size());
        }
        assert(argument(beta, gamma, pk.omega, pk.spec_size() as usize, cells@, images@) == a);
    }
    permutation_products(
        beta,
        gamma,
        pk.omega,
        pk.size(),
        &cells,
        &images,
        pk.chunk_len(),
        pk.unusable_rows_start(),
    )
}

impl<F: PrimeField> LookupColumns<F> {
    /// Law of the lookup columns, row by row: the input and the table are the compressed
    /// expressions of their own lookup. In the usable rows the permuted input is the input, in the
    /// order of the memory words, and equals the permuted table or the row above it; the permuted
    /// table is the table, counted, where the lookup is satisfied. The other rows, and the
    /// product, are zero.
    pub proof fn lemma_built(self, pk: ProvingKey<F>, theta: nat, c: Cells, i: int, row: int)
        requires
            pk.valid(),
            self.is_built(pk, theta, c, i),
            c.size == pow2(pk.k as nat),
            0 <= row < pow2(pk.k as nat),
        ensures
            ({
                let size = pow2(pk.k as nat);
                let usable = size - (pk.cs.blinding_factors + 1);
                let (pi, pt) = (self.permuted_input@, self.permuted_table@);
                let inputs = values(self.input@).take(usable);
                let tables = values(self.table@).take(usable);
                &&& pi.len() == size
                &&& pt.len() == size
                &&& self.input@.len() == size
                &&& self.table@.len() == size
                &&& self.product@.len() == size
                &&& self.input@[row].value() == compressed(
                    theta,
                    0,
                    pk.cs.lookups@[i].input_expressions@,
                    c,
                    row,
                )
                &&& self.table@[row].value() == compressed(
                    theta,
                    0,
                    pk.cs.lookups@[i].table_expressions@,
                    c,
                    row,
                )
                &&& self.product@[row].value() == 0
                &&& row >= usable ==> pi[row].value() == 0 && pt[row].value() == 0
                &&& row < usable ==> pi[row].value() == pt[row].value() || row > 0
                    && pi[row].value() == pi[row - 1].value()
                &&& row < usable && row == 0 ==> pi[row].value() == pt[row].value()
                &&& 0 < row < usable ==> {
                    let a = F::words_of(pi[row - 1].value());
                    let b = F::words_of(pi[row].value());
                    ||| a.0 < b.0
                    ||| a.0 == b.0 && a.1 < b.1
                    ||| a.0 == b.0 && a.1 == b.1 && a.2 < b.2
                    ||| a.0 == b.0 && a.1 == b.1 && a.2 == b.2 && a.3 <= b.3
                }
                &&& values(pi).take(usable).to_multiset() == inputs.to_multiset()
                &&& values(pt).take(usable) == aligned(
                    sorted::<F>(inputs),
                    sorted::<F>(tables),
                )
                &&& satisfied(pk.cs.lookups@[i], c, usable) ==> values(pt).take(
                    usable,
                ).to_multiset() == tables.to_multiset()
            }),
    {
        let size = pk.spec_size();
        let last = pk.spec_unusable_rows_start();
        let inputs = values(self.input@).take(last);
        let tables = values(self.table@).take(last);
        let a = sorted::<F>(inputs);
        let b = aligned(a, sorted::<F>(tables));
        lemma_sorted::<F>(inputs);
        lemma_sorted::<F>(tables);
        assert(a.len() == last);
        assert(b.len() == last);
        lemma_padded(a, size, row);
        lemma_padded(b, size, row);
        assert(values(self.permuted_input@).take(last) =~= a);
        assert(values(self.permuted_table@).take(last) =~= b);
        assert(values(self.permuted_input@)[row] == self.permuted_input@[row].value());
        assert(values(self.permuted_table@)[row] == self.permuted_table@[row].value());
        assert(values(self.input@)[row] == self.input@[row].value());
        assert(values(self.table@)[row] == self.table@[row].value());
        assert(values(self.product@)[row] == self.product@[row].value());
        if row < last {
            lemma_lookup_rows_agree::<F>(inputs, tables, row);
        }
        if 0 < row < last {
            lemma_sorted_by_words::<F>(inputs, row - 1, row);
            lemma_padded(a, size, row - 1);
            assert(values(self.permuted_input@)[row - 1] == self.permuted_input@[row
                - 1].value());
        }
        if satisfied(pk.cs.lookups@[i], c, last) {
            assert forall|k: int| 0 <= k < inputs.len() implies tables.contains(
                #[trigger] inputs[k],
            ) by {
                lemma_satisfied_is_contained(pk.cs.lookups@[i], theta, c, last, k);
            }
            lemma_lookup_is_permutation::<F>(inputs, tables);
        }
    }

    /// Law of the filled lookups: nothing but the product changes, and that starts at one, takes
    /// `(beta + input)(gamma + table)` of its own columns in from row to row and `(beta +
    /// permuted_input)(gamma + permuted_table)` out, unless that is zero, in which case it drops to
    /// zero, and is zero below row `last`.
    pub proof fn lemma_filled(
        self,
        beta: F,
        gamma: F,
        last: int,
        next: LookupColumns<F>,
        size: nat,
        i: int,
    )
        requires
            self.filled(beta, gamma, last, next),
            self.has_rows(size),
            0 <= last < size,
            0 <= i < size,
        ensures
            next.input == self.input,
            next.table == self.table,
            next.permuted_input == self.permuted_input,
            next.permuted_table == self.permuted_table,
            next.product@.len() == size,
            next.product@[0].value() == 1,
            ({
                let p = F::modulus();
                let z = next.product@;
                let taken_in = (beta.value() + self.input@[i].value()) * (gamma.value()
                    + self.table@[i].value());
                let taken_out = (beta.value() + self.permuted_input@[i].value()) * (gamma.value()
                    + self.permuted_table@[i].value());
                &&& i < last && taken_out % p != 0 ==> (z[i + 1].value() * taken_out) % p == (
                z[i].value() * taken_in) % p
                &&& i < last && taken_out % p == 0 ==> z[i + 1].value() == 0
                &&& i > last ==> z[i].value() == 0
            }),
    {
        lemma_lookup_identity(
            beta,
            gamma,
            self.input@,
            self.table@,
            self.permuted_input@,
            self.permuted_table@,
            last,
            next.product@,
            i,
        );
    }
}

/// Law of the argument of a circuit: its columns are those that the circuit names, in its order,
/// by kind and index; its images are those of the key; its generators are `delta` and the generator
/// of the domain.
pub proof fn lemma_circuit_argument<F: PrimeField>(
    pk: ProvingKey<F>,
    beta: F,
    gamma: F,
    c: Cells,
    i: int,
    row: int,
)
    ensures
        ({
            let a = circuit_argument(pk, beta, gamma, c);
            let columns = pk.cs.permutation_columns@;
            &&& a.p == F::modulus()
            &&& a.beta == beta.value()
            &&& a.gamma == gamma.value()
            &&& a.delta == F::delta_value()
            &&& a.omega == pk.omega.value()
            &&& a.size == pow2(pk.k as nat)
            &&& a.cells.len() == columns.len()
            &&& a.images.len() == pk.permutations@.len()
            &&& 0 <= i < columns.len() ==> a.cells[i] == match columns[i].column_type {
                Any::Advice => c.advice[columns[i].index as int],
                Any::Fixed => c.fixed[columns[i].index as int],
                Any::Instance => c.instance[columns[i].index as int],
            }
            &&& 0 <= i < pk.permutations@.len() ==> a.images[i].len() == pk.permutations@[i]@.len()
            &&& 0 <= i < pk.permutations@.len() && 0 <= row < pk.permutations@[i]@.len()
                ==> a.images[i][row] == pk.permutations@[i]@[row].value()
        }),
{
}

} // verus!
