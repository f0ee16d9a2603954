//! Running products of ratios, the columns that close the lookup and permutation arguments.
use crate::algebra::{
    inv_mod, lemma_inverse_is_inverse, lemma_mul_assoc, lemma_mul_commutes, lemma_mul_one,
    lemma_mul_reduce, lemma_product_bound, lemma_product_pairwise, lemma_product_push, mul_mod,
    product,
};
use crate::field::{values, PrimeField};
use vstd::arithmetic::div_mod::lemma_small_mod;
use vstd::prelude::*;

verus! {

/// `first`, multiplied by the first `i` ratios in turn.
pub open spec fn running(p: nat, first: nat, ratios: Seq<nat>, i: int) -> nat
    decreases i,
{
    if i <= 0 {
        first
    } else {
        mul_mod(p, running(p, first, ratios, i - 1), ratios[i - 1])
    }
}

/// The column of running products in the rows up to and with `last`, and zeros below.
pub open spec fn product_column(p: nat, first: nat, ratios: Seq<nat>, last: int) -> Seq<nat> {
    Seq::new(
        ratios.len(),
        |i: int|
            if i <= last {
                running(p, first, ratios, i)
            } else {
                0
            },
    )
}

/// In each row, the numerator over the denominator; a denominator that is zero counts as if its
/// inverse were zero.
pub open spec fn ratios(p: nat, numerators: Seq<nat>, denominators: Seq<nat>) -> Seq<nat> {
    Seq::new(
        numerators.len(),
        |i: int| mul_mod(p, inv_mod(p, denominators[i]), numerators[i]),
    )
}

/// A running product is the product of the factors it has met.
pub proof fn lemma_running(p: nat, first: nat, ratios: Seq<nat>, i: int)
    requires
        p > 1,
        first < p,
        0 <= i <= ratios.len(),
    ensures
        running(p, first, ratios, i) == mul_mod(p, first, product(p, ratios.take(i))),
        running(p, first, ratios, i) < p,
    decreases i,
{
    if i == 0 {
        lemma_mul_one(p, first);
    } else {
        lemma_running(p, first, ratios, i - 1);
        assert(ratios.take(i) =~= ratios.take(i - 1).push(ratios[i - 1]));
        lemma_product_push(p, ratios.take(i - 1), ratios[i - 1]);
        lemma_mul_assoc(p, first, product(p, ratios.take(i - 1)), ratios[i - 1]);
    }
}

/// None of the first `last` rows is zero.
pub open spec fn nonzero_rows(s: Seq<nat>, last: int) -> bool {
    forall|i: int| 0 <= i < last ==> #[trigger] s[i] != 0
}

/// From row `i` to the next, the product `z` takes the numerator in and the denominator out.
pub open spec fn balances(
    p: nat,
    z: Seq<nat>,
    numerators: Seq<nat>,
    denominators: Seq<nat>,
    i: int,
) -> bool {
    mul_mod(p, z[i + 1], denominators[i]) == mul_mod(p, z[i], numerators[i])
}

/// A running product of ratios balances in every row whose denominator has an inverse.
pub proof fn lemma_running_balances(
    p: nat,
    first: nat,
    numerators: Seq<nat>,
    denominators: Seq<nat>,
    i: int,
)
    requires
        p > 1,
        0 <= i < numerators.len(),
        mul_mod(p, denominators[i], inv_mod(p, denominators[i])) == 1,
    ensures
        mul_mod(
            p,
            running(p, first, ratios(p, numerators, denominators), i + 1),
            denominators[i],
        ) == mul_mod(
            p,
            running(p, first, ratios(p, numerators, denominators), i),
            numerators[i],
        ),
{
    let (d, n, e) = (denominators[i], numerators[i], inv_mod(p, denominators[i]));
    let z = running(p, first, ratios(p, numerators, denominators), i);
    lemma_mul_assoc(p, z, mul_mod(p, e, n), d);
    lemma_mul_assoc(p, e, n, d);
    lemma_mul_commutes(p, n, d);
    lemma_mul_assoc(p, e, d, n);
    lemma_mul_commutes(p, e, d);
    lemma_mul_reduce(p, z, n);
}

/// Where every denominator has an inverse, the product of the ratios is the ratio of the products.
pub proof fn lemma_ratio_product(
    p: nat,
    denominators: Seq<nat>,
    numerators: Seq<nat>,
    ratios: Seq<nat>,
) -> (inverse: nat)
    requires
        p > 1,
        denominators.len() == ratios.len(),
        numerators.len() == ratios.len(),
        forall|i: int|
            0 <= i < ratios.len() ==> #[trigger] ratios[i] == mul_mod(
                p,
                inv_mod(p, denominators[i]),
                numerators[i],
            ),
        forall|i: int|
            0 <= i < ratios.len() ==> mul_mod(
                p,
                #[trigger] denominators[i],
                inv_mod(p, denominators[i]),
            ) == 1,
    ensures
        mul_mod(p, product(p, ratios), product(p, denominators)) == product(p, numerators),
        mul_mod(p, product(p, denominators), inverse) == 1,
{
    let inverses = Seq::new(ratios.len(), |i: int| inv_mod(p, denominators[i]));
    let ones = Seq::new(ratios.len(), |i: int| 1nat);
    lemma_product_pairwise(p, inverses, numerators, ratios);
    lemma_product_pairwise(p, denominators, inverses, ones);
    lemma_product_of_ones(p, ratios.len());
    let (d, n, e) = (product(p, denominators), product(p, numerators), product(p, inverses));
    lemma_product_bound(p, numerators);
    lemma_mul_assoc(p, e, n, d);
    lemma_mul_commutes(p, n, d);
    lemma_mul_assoc(p, e, d, n);
    lemma_mul_commutes(p, e, d);
    lemma_mul_one(p, n);
    e
}

/// Ones multiply to one.
pub proof fn lemma_product_of_ones(p: nat, len: nat)
    requires
        p > 1,
    ensures
        product(p, Seq::new(len, |i: int| 1nat)) == 1,
    decreases len,
{
    lemma_mul_one(p, 1);
    let ones = Seq::new(len, |i: int| 1nat);
    if len > 0 {
        assert(ones.drop_last() =~= Seq::new((len - 1) as nat, |i: int| 1nat));
        lemma_product_of_ones(p, (len - 1) as nat);
    }
}

/// Turns a column of ratios into the column of their running products, in the rows up to and with
/// `last`; the rows below become zero. The return value is the running product in row `last`.
pub fn accumulate<F: PrimeField>(column: &mut Vec<F>, first: F, last: usize) -> (end: F)
    requires
        last < old(column)@.len(),
    ensures
        values(final(column)@) == product_column(
            F::modulus(),
            first.value(),
            values(old(column)@),
            last as int,
        ),
        end.value() == running(F::modulus(), first.value(), values(old(column)@), last as int),
{
    let ghost p = F::modulus();
    let ghost ratios = values(column@);
    let mut acc = first;
    for i in 0..last
        invariant
            p == F::modulus(),
            last < column@.len(),
            column@.len() == ratios.len(),
            acc.value() == running(p, first.value(), ratios, i as int),
            forall|k: int|
                0 <= k < i ==> (#[trigger] column@[k]).value() == running(
                    p,
                    first.value(),
                    ratios,
                    k,
                ),
            forall|k: int| i <= k < ratios.len() ==> (#[trigger] column@[k]).value() == ratios[k],
    {
        let ratio = column[i];
        column[i] = acc;
        acc = acc.mul(ratio);
    }
    column[last] = acc;
    let len: usize = column.len();
    for i in last + 1..len
        invariant
            p == F::modulus(),
            last < len == column@.len(),
            column@.len() == ratios.len(),
            forall|k: int|
                0 <= k <= last ==> (#[trigger] column@[k]).value() == running(
                    p,
                    first.value(),
                    ratios,
                    k,
                ),
            forall|k: int| last < k < i ==> (#[trigger] column@[k]).value() == 0,
    {
        column[i] = F::zero();
    }
    assert(values(column@) =~= product_column(p, first.value(), ratios, last as int));
    acc
}

/// Law of the running products: the column starts at `first`, is multiplied by the ratio of a row
/// on the way to the next, down to row `last`, and is zero below.
pub proof fn lemma_product_column(p: nat, first: nat, ratios: Seq<nat>, last: int, i: int)
    requires
        0 <= last < ratios.len(),
        0 <= i < ratios.len(),
    ensures
        ({
            let z = product_column(p, first, ratios, last);
            &&& z.len() == ratios.len()
            &&& z[0] == first
            &&& i < last ==> z[i + 1] == (z[i] * ratios[i]) % p
            &&& i > last ==> z[i] == 0
            &&& z[last] == running(p, first, ratios, last)
        }),
{
}

/// Law of the ratios: times the denominator, where that has an inverse, a ratio is the numerator;
/// where the denominator is zero, so is the ratio.
pub proof fn lemma_ratios(
    p: nat,
    numerators: Seq<nat>,
    denominators: Seq<nat>,
    i: int,
    inverse: nat,
)
    requires
        p > 1,
        0 <= i < numerators.len(),
    ensures
        ({
            let r = ratios(p, numerators, denominators);
            &&& r.len() == numerators.len()
            &&& (denominators[i] * inverse) % p == 1 ==> (r[i] * denominators[i]) % p
                == numerators[i] % p
            &&& denominators[i] % p == 0 ==> r[i] == 0
        }),
{
    let (d, n) = (denominators[i], numerators[i]);
    let e = inv_mod(p, d);
    if (d * inverse) % p == 1 {
        lemma_mul_reduce(p, d, inverse);
        lemma_inverse_is_inverse(p, d, inverse % p);
        lemma_mul_assoc(p, e, n, d);
        lemma_mul_commutes(p, n, d);
        lemma_mul_assoc(p, e, d, n);
        lemma_mul_commutes(p, e, d);
        assert(mul_mod(p, 1, n) == n % p);
    }
    if d % p == 0 {
        lemma_inverse_is_inverse(p, d, 0);
        assert(0 * n == 0) by (nonlinear_arith);
        lemma_small_mod(0, p);
    }
}

/// Every nonzero entry has an inverse.
pub open spec fn nonzero_have_inverses(p: nat, s: Seq<nat>) -> bool {
    forall|i: int|
        0 <= i < s.len() && s[i] != 0 ==> mul_mod(p, #[trigger] s[i], inv_mod(p, s[i])) == 1
}

} // verus!
