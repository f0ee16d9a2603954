//! The product column of a lookup argument.
use crate::algebra::{
    add_mod, inv_mod, inverts, lemma_cancel, lemma_inverse_unique, lemma_map_permutation,
    lemma_mul_one, lemma_mul_reduce, lemma_product_bound, lemma_product_pairwise,
    lemma_product_permutation, mul_mod, product,
};
use crate::field::{values, PrimeField};
use crate::grand_product::{
    accumulate, balances, lemma_product_column, lemma_ratio_product, lemma_ratios, lemma_running,
    lemma_running_balances, nonzero_have_inverses, nonzero_rows, product_column, ratios, running,
};
use vstd::arithmetic::div_mod::{lemma_mod_twice, lemma_small_mod};
use vstd::prelude::*;

verus! {

/// What a row of an input column and a row of a table column contribute to the product.
pub open spec fn lookup_term(p: nat, beta: nat, gamma: nat, a: nat, s: nat) -> nat {
    mul_mod(p, add_mod(p, beta, a), add_mod(p, gamma, s))
}

/// The terms of an input column and a table column, row by row.
pub open spec fn lookup_terms(
    p: nat,
    beta: nat,
    gamma: nat,
    input: Seq<nat>,
    table: Seq<nat>,
) -> Seq<nat> {
    Seq::new(input.len(), |i: int| lookup_term(p, beta, gamma, input[i], table[i]))
}

/// The terms of two columns of elements.
pub open spec fn column_terms<F: PrimeField>(
    beta: F,
    gamma: F,
    input: Seq<F>,
    table: Seq<F>,
) -> Seq<nat> {
    lookup_terms(F::modulus(), beta.value(), gamma.value(), values(input), values(table))
}

/// The first `last` rows of two columns hold the same elements, counted.
pub open spec fn same_rows(a: Seq<nat>, b: Seq<nat>, last: int) -> bool {
    a.take(last).to_multiset() == b.take(last).to_multiset()
}

/// `z` is the product column of a lookup: the running products of its ratios up to row `last`,
/// zeros below. It balances from row to row wherever the denominator is not zero, and is back at
/// one in row `last` where the permuted columns hold the same elements as the columns themselves.
pub open spec fn is_lookup_product<F: PrimeField>(
    beta: F,
    gamma: F,
    input: Seq<F>,
    table: Seq<F>,
    permuted_input: Seq<F>,
    permuted_table: Seq<F>,
    last: int,
    z: Seq<F>,
) -> bool {
    let p = F::modulus();
    let numerators = column_terms(beta, gamma, input, table);
    let denominators = column_terms(beta, gamma, permuted_input, permuted_table);
    &&& values(z) == product_column(p, 1, ratios(p, numerators, denominators), last)
    &&& forall|i: int|
        0 <= i < last && denominators[i] != 0 ==> #[trigger] balances(
            p,
            values(z),
            numerators,
            denominators,
            i,
        )
    &&& nonzero_have_inverses(p, denominators)
    &&& nonzero_rows(denominators, last) && same_rows(values(permuted_input), values(input), last)
        && same_rows(values(permuted_table), values(table), last) ==> values(z)[last] == 1
}

/// The terms of one column against another depend on the order of neither.
proof fn lemma_terms_permute(
    p: nat,
    beta: nat,
    gamma: nat,
    input: Seq<nat>,
    table: Seq<nat>,
    permuted_input: Seq<nat>,
    permuted_table: Seq<nat>,
)
    requires
        p > 1,
        input.len() == table.len(),
        permuted_input.len() == input.len(),
        permuted_table.len() == input.len(),
        permuted_input.to_multiset() == input.to_multiset(),
        permuted_table.to_multiset() == table.to_multiset(),
    ensures
        product(p, lookup_terms(p, beta, gamma, input, table)) == product(
            p,
            lookup_terms(p, beta, gamma, permuted_input, permuted_table),
        ),
{
    let shift_input = |x: nat| add_mod(p, beta, x);
    let shift_table = |x: nat| add_mod(p, gamma, x);
    lemma_map_permutation(permuted_input, input, shift_input);
    lemma_map_permutation(permuted_table, table, shift_table);
    lemma_product_permutation(
        p,
        permuted_input.map_values(shift_input),
        input.map_values(shift_input),
    );
    lemma_product_permutation(
        p,
        permuted_table.map_values(shift_table),
        table.map_values(shift_table),
    );
    lemma_product_pairwise(
        p,
        input.map_values(shift_input),
        table.map_values(shift_table),
        lookup_terms(p, beta, gamma, input, table),
    );
    lemma_product_pairwise(
        p,
        permuted_input.map_values(shift_input),
        permuted_table.map_values(shift_table),
        lookup_terms(p, beta, gamma, permuted_input, permuted_table),
    );
}

/// Law of the product column: where the permuted columns hold, in the first `last` rows, the same
/// elements as the columns themselves, and no denominator of these rows is without an inverse, the
/// running product is one again in row `last`.
pub proof fn lemma_lookup_product_closes(
    p: nat,
    beta: nat,
    gamma: nat,
    input: Seq<nat>,
    table: Seq<nat>,
    permuted_input: Seq<nat>,
    permuted_table: Seq<nat>,
    last: int,
)
    requires
        p > 1,
        0 <= last <= input.len(),
        input.len() == table.len(),
        permuted_input.len() == input.len(),
        permuted_table.len() == input.len(),
        same_rows(permuted_input, input, last),
        same_rows(permuted_table, table, last),
        forall|i: int|
            0 <= i < last ==> #[trigger] mul_mod(
                p,
                lookup_terms(p, beta, gamma, permuted_input, permuted_table)[i],
                inv_mod(p, lookup_terms(p, beta, gamma, permuted_input, permuted_table)[i]),
            ) == 1,
    ensures
        running(
            p,
            1,
            ratios(
                p,
                lookup_terms(p, beta, gamma, input, table),
                lookup_terms(p, beta, gamma, permuted_input, permuted_table),
            ),
            last,
        ) == 1,
{
    let numerators = lookup_terms(p, beta, gamma, input, table);
    let denominators = lookup_terms(p, beta, gamma, permuted_input, permuted_table);
    let all = ratios(p, numerators, denominators);
    lemma_running(p, 1, all, last);
    assert forall|i: int| 0 <= i < last implies mul_mod(
        p,
        #[trigger] denominators.take(last)[i],
        inv_mod(p, denominators.take(last)[i]),
    ) == 1 by {
        assert(mul_mod(p, denominators[i], inv_mod(p, denominators[i])) == 1);
    }
    let inverse = lemma_ratio_product(
        p,
        denominators.take(last),
        numerators.take(last),
        all.take(last),
    );
    lemma_terms_permute(
        p,
        beta,
        gamma,
        input.take(last),
        table.take(last),
        permuted_input.take(last),
        permuted_table.take(last),
    );
    assert(lookup_terms(p, beta, gamma, input.take(last), table.take(last)) =~= numerators.take(
        last,
    ));
    assert(lookup_terms(p, beta, gamma, permuted_input.take(last), permuted_table.take(last))
        =~= denominators.take(last));
    let d = product(p, denominators.take(last));
    let r = product(p, all.take(last));
    lemma_product_bound(p, denominators.take(last));
    lemma_product_bound(p, all.take(last));
    lemma_mul_one(p, d);
    lemma_cancel(p, r, 1, d, inverse);
    lemma_mul_one(p, r);
}

/// The terms of two columns of elements, row by row.
fn terms<F: PrimeField>(beta: F, gamma: F, input: &Vec<F>, table: &Vec<F>) -> (r: Vec<F>)
    requires
        input@.len() == table@.len(),
    ensures
        values(r@) == column_terms(beta, gamma, input@, table@),
{
    let mut r: Vec<F> = Vec::new();
    for i in 0..input.len()
        invariant
            input@.len() == table@.len(),
            r@.len() == i,
            forall|k: int|
                0 <= k < i ==> (#[trigger] r@[k]).value() == lookup_term(
                    F::modulus(),
                    beta.value(),
                    gamma.value(),
                    input@[k].value(),
                    table@[k].value(),
                ),
    {
        r.push(beta.add(input[i]).mul(gamma.add(table[i])));
    }
    assert(values(r@) =~= column_terms(beta, gamma, input@, table@));
    r
}

/// The product column of one lookup: in each row up to and with `unusable_rows_start`, the product
/// over the rows above of `(beta + input)(gamma + table)` over
/// `(beta + permuted_input)(gamma + permuted_table)`; zeros below.
pub fn lookup_product<F: PrimeField>(
    beta: F,
    gamma: F,
    input: &Vec<F>,
    table: &Vec<F>,
    permuted_input: &Vec<F>,
    permuted_table: &Vec<F>,
    unusable_rows_start: usize,
) -> (z: Vec<F>)
    requires
        unusable_rows_start < input@.len(),
        table@.len() == input@.len(),
        permuted_input@.len() == input@.len(),
        permuted_table@.len() == input@.len(),
    ensures
        is_lookup_product(
            beta,
            gamma,
            input@,
            table@,
            permuted_input@,
            permuted_table@,
            unusable_rows_start as int,
            z@,
        ),
{
    let ghost p = F::modulus();
    let ghost numerators = column_terms(beta, gamma, input@, table@);
    let ghost denominators = column_terms(beta, gamma, permuted_input@, permuted_table@);
    let ghost last = unusable_rows_start as int;
    proof {
        F::lemma_modulus();
    }
    let mut z = terms(beta, gamma, permuted_input, permuted_table);
    let ghost unscaled = z@;
    assert(values(z@) == denominators);
    F::batch_invert(&mut z);
    let ghost inverted = z@;
    proof {
        assert forall|i: int| 0 <= i < z@.len() implies (#[trigger] z@[i]).value() == inv_mod(
            p,
            denominators[i],
        ) && inverts(p, denominators[i], z@[i].value()) by {
            assert(values(unscaled)[i] == denominators[i]);
            lemma_inverse_unique(p, denominators[i], z@[i].value());
        }
    }
    let scale = terms(beta, gamma, input, table);
    assert(values(scale@) == numerators);
    assert(values(scale@).len() == scale@.len());
    assert(values(unscaled).len() == z@.len());
    let len: usize = z.len();
    for i in 0..len
        invariant
            p == F::modulus(),
            z@.len() == len,
            scale@.len() == len,
            numerators.len() == len,
            inverted.len() == len,
            values(scale@) == numerators,
            forall|k: int|
                0 <= k < len ==> (#[trigger] inverted[k]).value() == inv_mod(p, denominators[k]),
            forall|k: int|
                0 <= k < i ==> (#[trigger] z@[k]).value() == mul_mod(
                    p,
                    inv_mod(p, denominators[k]),
                    numerators[k],
                ),
            forall|k: int| i <= k < len ==> #[trigger] z@[k] == inverted[k],
    {
        assert(values(scale@)[i as int] == scale@[i as int].value());
        z[i] = z[i].mul(scale[i]);
    }
    let ghost all = ratios(p, numerators, denominators);
    assert(values(z@) =~= all);
    let end = accumulate(&mut z, F::one(), unusable_rows_start);
    proof {
        assert forall|i: int| 0 <= i < denominators.len() && denominators[i] != 0 implies mul_mod(
            p,
            #[trigger] denominators[i],
            inv_mod(p, denominators[i]),
        ) == 1 by {
            assert(inverts(p, denominators[i], inverted[i].value()));
            lemma_small_mod(denominators[i], p);
        }
        assert forall|i: int| 0 <= i < last && denominators[i] != 0 implies #[trigger] balances(
            p,
            values(z@),
            numerators,
            denominators,
            i,
        ) by {
            assert(inverts(p, denominators[i], inverted[i].value()));
            lemma_small_mod(denominators[i], p);
            lemma_running_balances(p, 1, numerators, denominators, i);
        }
        if nonzero_rows(denominators, last) && same_rows(
            values(permuted_input@),
            values(input@),
            last,
        ) && same_rows(values(permuted_table@), values(table@), last) {
            assert forall|i: int| 0 <= i < last implies #[trigger] mul_mod(
                p,
                denominators[i],
                inv_mod(p, denominators[i]),
            ) == 1 by {
                assert(inverts(p, denominators[i], inverted[i].value()));
                lemma_small_mod(denominators[i], p);
            }
            lemma_lookup_product_closes(
                p,
                beta.value(),
                gamma.value(),
                values(input@),
                values(table@),
                values(permuted_input@),
                values(permuted_table@),
                last,
            );
        }
    }
    z
}

/// Law of the lookup product, in the challenges: the column starts at one; from a row to the next
/// it takes `(beta + input)(gamma + table)` in and `(beta + permuted_input)(gamma +
/// permuted_table)` out, unless that is zero, in which case it drops to zero; below row `last` it
/// is zero. Whatever is taken out can be divided by.
pub proof fn lemma_lookup_identity<F: PrimeField>(
    beta: F,
    gamma: F,
    input: Seq<F>,
    table: Seq<F>,
    permuted_input: Seq<F>,
    permuted_table: Seq<F>,
    last: int,
    z: Seq<F>,
    i: int,
)
    requires
        is_lookup_product(
            beta,
            gamma,
            input,
            table,
            permuted_input,
            permuted_table,
            last,
            z,
        ),
        0 <= last < input.len(),
        table.len() == input.len(),
        permuted_input.len() == input.len(),
        permuted_table.len() == input.len(),
        0 <= i < input.len(),
    ensures
        z.len() == input.len(),
        z[0].value() == 1,
        ({
            let p = F::modulus();
            let taken_in = (beta.value() + input[i].value()) * (gamma.value() + table[i].value());
            let taken_out = (beta.value() + permuted_input[i].value()) * (gamma.value()
                + permuted_table[i].value());
            &&& i < last && taken_out % p != 0 ==> (z[i + 1].value() * taken_out) % p == (
            z[i].value() * taken_in) % p
            &&& i < last && taken_out % p == 0 ==> z[i + 1].value() == 0
            &&& i > last ==> z[i].value() == 0
            &&& taken_out % p != 0 ==> exists|e: nat| e < p && #[trigger] (taken_out * e) % p == 1
        }),
{
    let p = F::modulus();
    F::lemma_modulus();
    let numerators = column_terms(beta, gamma, input, table);
    let denominators = column_terms(beta, gamma, permuted_input, permuted_table);
    let all = ratios(p, numerators, denominators);
    assert(values(z).len() == z.len());
    assert forall|k: int| 0 <= k < z.len() implies z[k].value() == #[trigger] values(z)[k] by {}
    lemma_product_column(p, 1, all, last, i);
    let (b, g) = (beta.value(), gamma.value());
    let taken_in = (b + input[i].value()) * (g + table[i].value());
    let taken_out = (b + permuted_input[i].value()) * (g + permuted_table[i].value());
    lemma_mul_reduce(p, b + input[i].value(), g + table[i].value());
    lemma_mul_reduce(p, b + permuted_input[i].value(), g + permuted_table[i].value());
    assert(values(input)[i] == input[i].value());
    assert(values(table)[i] == table[i].value());
    assert(values(permuted_input)[i] == permuted_input[i].value());
    assert(values(permuted_table)[i] == permuted_table[i].value());
    assert(numerators[i] == taken_in % p);
    assert(denominators[i] == taken_out % p);
    lemma_mod_twice(taken_out as int, p as int);
    assert(values(z)[0] == z[0].value());
    if i < last {
        assert(values(z)[i] == z[i].value());
        assert(values(z)[i + 1] == z[i + 1].value());
        lemma_mul_reduce(p, z[i + 1].value(), taken_out);
        lemma_mul_reduce(p, z[i].value(), taken_in);
        if taken_out % p != 0 {
            assert(balances(p, values(z), numerators, denominators, i));
        } else {
            lemma_ratios(p, numerators, denominators, i, 0);
            assert(z[i].value() * 0 == 0) by (nonlinear_arith);
            lemma_small_mod(0, p);
        }
    }
    if i > last {
        assert(values(z)[i] == z[i].value());
    }
    if taken_out % p != 0 {
        let e = inv_mod(p, denominators[i]) % p;
        assert(mul_mod(p, denominators[i], inv_mod(p, denominators[i])) == 1);
        lemma_mul_reduce(p, denominators[i], inv_mod(p, denominators[i]));
        lemma_mul_reduce(p, taken_out, e);
        assert((taken_out * e) % p == 1);
    }
}

} // verus!
