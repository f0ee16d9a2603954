//! The product columns of the permutation argument.
use crate::algebra::{
    add_mod, inv_mod, lemma_cancel, lemma_inverse_unique, lemma_map_permutation, lemma_mul_assoc,
    lemma_mul_commutes, lemma_mul_one, lemma_mul_swap, lemma_pow_is_power, lemma_product_bound,
    lemma_product_concat,
    lemma_product_is_fold, lemma_product_pairwise, lemma_product_permutation, lemma_product_push,
    lemma_rearranged, mul_mod, pow_mod, product,
};
use crate::field::{repeat, slices, values, PrimeField};
use crate::grand_product::{
    accumulate, balances, lemma_product_column, lemma_product_of_ones, lemma_ratio_product,
    lemma_ratios, lemma_running, lemma_running_balances, nonzero_have_inverses, nonzero_rows,
    product_column, ratios, running,
};
use crate::parallel::map_indices;
use vstd::arithmetic::div_mod::{
    lemma_add_mod_noop, lemma_fundamental_div_mod, lemma_fundamental_div_mod_converse,
    lemma_mod_twice, lemma_mul_mod_noop, lemma_mul_mod_noop_left, lemma_mul_mod_noop_right,
    lemma_small_mod,
};
use vstd::arithmetic::mul::lemma_mul_is_commutative;
use vstd::arithmetic::power::pow;
use vstd::prelude::*;

verus! {

/// What a cell contributes to a product, under a label.
pub open spec fn cell_term(p: nat, beta: nat, gamma: nat, label: nat, v: nat) -> nat {
    add_mod(p, add_mod(p, mul_mod(p, beta, label), gamma), v)
}

/// A permutation argument: the columns it ranges over, and for each of their cells the label of
/// the cell that it is mapped to.
pub struct Argument {
    pub p: nat,
    pub beta: nat,
    pub gamma: nat,
    pub delta: nat,
    pub omega: nat,
    pub size: nat,
    pub cells: Seq<Seq<nat>>,
    pub images: Seq<Seq<nat>>,
}

impl Argument {
    /// The label of a cell: `delta^column omega^row`.
    pub open spec fn label(self, column: int, row: int) -> nat {
        mul_mod(
            self.p,
            pow_mod(self.p, self.delta, column as nat),
            pow_mod(self.p, self.omega, row as nat),
        )
    }

    /// What a cell contributes under its own label.
    pub open spec fn numerator(self, column: int, row: int) -> nat {
        cell_term(
            self.p,
            self.beta,
            self.gamma,
            self.label(column, row),
            self.cells[column][row],
        )
    }

    /// What a cell contributes under the label of the cell it is mapped to.
    pub open spec fn denominator(self, column: int, row: int) -> nat {
        cell_term(
            self.p,
            self.beta,
            self.gamma,
            self.images[column][row],
            self.cells[column][row],
        )
    }

    /// The numerators of a row in the columns `from..to`.
    pub open spec fn numerators_in(self, from: int, to: int, row: int) -> Seq<nat> {
        Seq::new((to - from) as nat, |c: int| self.numerator(from + c, row))
    }

    /// The denominators of a row in the columns `from..to`.
    pub open spec fn denominators_in(self, from: int, to: int, row: int) -> Seq<nat> {
        Seq::new((to - from) as nat, |c: int| self.denominator(from + c, row))
    }

    /// Row by row, the product of the numerators in the columns `from..to`.
    pub open spec fn numerators(self, from: int, to: int) -> Seq<nat> {
        Seq::new(self.size, |row: int| product(self.p, self.numerators_in(from, to, row)))
    }

    /// Row by row, the product of the denominators in the columns `from..to`.
    pub open spec fn denominators(self, from: int, to: int) -> Seq<nat> {
        Seq::new(self.size, |row: int| product(self.p, self.denominators_in(from, to, row)))
    }

    /// Row by row, the ratio that the columns `from..to` contribute.
    pub open spec fn ratios(self, from: int, to: int) -> Seq<nat> {
        ratios(self.p, self.numerators(from, to), self.denominators(from, to))
    }

    /// The first column of chunk `j`, or the number of columns.
    pub open spec fn bound(self, chunk_len: int, j: int) -> int {
        if j * chunk_len < self.cells.len() {
            j * chunk_len
        } else {
            self.cells.len() as int
        }
    }

    /// The ratios of chunk `j`.
    pub open spec fn chunk_ratios(self, chunk_len: int, j: int) -> Seq<nat> {
        self.ratios(self.bound(chunk_len, j), self.bound(chunk_len, j + 1))
    }

    /// Where the product of chunk `j` starts: at one, or where the chunk before ended.
    pub open spec fn start(self, chunk_len: int, last: int, j: int) -> nat
        decreases j,
    {
        if j <= 0 {
            1
        } else {
            running(
                self.p,
                self.start(chunk_len, last, j - 1),
                self.chunk_ratios(chunk_len, j - 1),
                last,
            )
        }
    }

    /// The product column of chunk `j`.
    pub open spec fn product_column(self, chunk_len: int, last: int, j: int) -> Seq<nat> {
        product_column(
            self.p,
            self.start(chunk_len, last, j),
            self.chunk_ratios(chunk_len, j),
            last,
        )
    }

    /// The columns have `size` rows, and as many as their images.
    pub open spec fn valid(self) -> bool {
        &&& self.p > 1
        &&& self.cells.len() == self.images.len()
        &&& forall|c: int|
            0 <= c < self.cells.len() ==> (#[trigger] self.cells[c]).len() == self.size
                && self.images[c].len() == self.size
    }
}

/// The cells of the first `n` columns, in the rows above `last`, each with a label.
pub open spec fn labelled(
    label: spec_fn(int, int) -> nat,
    cells: Seq<Seq<nat>>,
    n: int,
    last: int,
) -> Seq<(nat, nat)>
    decreases n,
{
    if n <= 0 {
        Seq::empty()
    } else {
        labelled(label, cells, n - 1, last) + Seq::new(
            last as nat,
            |row: int| (label(n - 1, row), cells[n - 1][row]),
        )
    }
}

impl Argument {
    /// Relabelling each cell with the cell it is mapped to, and keeping its value, gives the same
    /// labelled values, counted. This is so where the mapping permutes the cells above row `last`
    /// and only cells with equal values are mapped to each other.
    pub open spec fn respected(self, last: int) -> bool {
        labelled(|c: int, row: int| self.images[c][row], self.cells, self.cells.len() as int, last)
            .to_multiset() == labelled(
            |c: int, row: int| self.label(c, row),
            self.cells,
            self.cells.len() as int,
            last,
        ).to_multiset()
    }

    /// The numerators of chunk `j`, row by row.
    pub open spec fn chunk_numerators(self, chunk_len: int, j: int) -> Seq<nat> {
        self.numerators(self.bound(chunk_len, j), self.bound(chunk_len, j + 1))
    }

    /// The denominators of chunk `j`, row by row.
    pub open spec fn chunk_denominators(self, chunk_len: int, j: int) -> Seq<nat> {
        self.denominators(self.bound(chunk_len, j), self.bound(chunk_len, j + 1))
    }
}

/// Where a labelled cell stands.
proof fn lemma_labelled_place(
    label: spec_fn(int, int) -> nat,
    cells: Seq<Seq<nat>>,
    n: int,
    last: int,
    c: int,
    row: int,
)
    requires
        0 <= c < n,
        0 <= row < last,
    ensures
        0 <= c * last + row < n * last,
        labelled(label, cells, n, last).len() == n * last,
        labelled(label, cells, n, last)[c * last + row] == (label(c, row), cells[c][row]),
    decreases n,
{
    lemma_labelled_len(label, cells, n, last);
    lemma_labelled_len(label, cells, n - 1, last);
    assert((n - 1) * last + last == n * last) by (nonlinear_arith);
    if c < n - 1 {
        lemma_labelled_place(label, cells, n - 1, last, c, row);
    } else {
        assert(0 <= c * last) by (nonlinear_arith)
            requires
                0 <= c,
                0 < last,
        ;
    }
}

proof fn lemma_labelled_len(
    label: spec_fn(int, int) -> nat,
    cells: Seq<Seq<nat>>,
    n: int,
    last: int,
)
    requires
        0 <= n,
        0 <= last,
    ensures
        labelled(label, cells, n, last).len() == n * last,
    decreases n,
{
    if n > 0 {
        lemma_labelled_len(label, cells, n - 1, last);
        assert((n - 1) * last + last == n * last) by (nonlinear_arith);
    } else {
        assert(0 * last == 0) by (nonlinear_arith);
    }
}

/// The column and the row of a place.
spec fn cell_of(t: int, last: int) -> (int, int) {
    (t / last, t % last)
}

proof fn lemma_cell_of(t: int, n: int, last: int)
    requires
        0 <= t < n * last,
        0 < last,
    ensures
        ({
            let (c, row) = cell_of(t, last);
            0 <= c < n && 0 <= row < last && c * last + row == t
        }),
{
    lemma_fundamental_div_mod(t, last);
    lemma_mul_is_commutative(t / last, last);
    assert(0 <= t / last < n) by (nonlinear_arith)
        requires
            0 <= t < n * last,
            0 < last,
            t == last * (t / last) + t % last,
            0 <= t % last < last,
    ;
}

/// Where a cell stands is where it is found.
proof fn lemma_cell_at(c: int, row: int, last: int)
    requires
        0 <= row < last,
    ensures
        cell_of(c * last + row, last) == (c, row),
{
    lemma_fundamental_div_mod_converse(c * last + row, last, c, row);
}

/// Law of the copies: where each cell above row `last` is mapped to one of these cells with the
/// same value, by a mapping that can be undone, and its image is the label of the cell it is
/// mapped to, the mapping is respected.
pub proof fn lemma_copies_are_respected(
    a: Argument,
    last: int,
    to: spec_fn(int, int) -> (int, int),
    back: spec_fn(int, int) -> (int, int),
)
    requires
        0 <= last,
        forall|c: int, row: int|
            0 <= c < a.cells.len() && 0 <= row < last ==> {
                let (d, s) = #[trigger] to(c, row);
                &&& 0 <= d < a.cells.len() && 0 <= s < last
                &&& back(d, s) == (c, row)
                &&& a.images[c][row] == a.label(d, s)
                &&& a.cells[c][row] == a.cells[d][s]
            },
        forall|c: int, row: int|
            0 <= c < a.cells.len() && 0 <= row < last ==> {
                let (d, s) = #[trigger] back(c, row);
                &&& 0 <= d < a.cells.len() && 0 <= s < last
                &&& to(d, s) == (c, row)
            },
    ensures
        a.respected(last),
{
    let m = a.cells.len() as int;
    let own = |c: int, row: int| a.label(c, row);
    let image = |c: int, row: int| a.images[c][row];
    let (x, y) = (labelled(own, a.cells, m, last), labelled(image, a.cells, m, last));
    lemma_labelled_len(own, a.cells, m, last);
    lemma_labelled_len(image, a.cells, m, last);
    let forth = |t: int|
        {
            let (c, row) = cell_of(t, last);
            to(c, row).0 * last + to(c, row).1
        };
    let undone = |t: int|
        {
            let (c, row) = cell_of(t, last);
            back(c, row).0 * last + back(c, row).1
        };
    assert forall|t: int| 0 <= t < x.len() implies 0 <= #[trigger] forth(t) < x.len() && undone(
        forth(t),
    ) == t && y[t] == x[forth(t)] by {
        assert(last > 0) by (nonlinear_arith)
            requires
                0 <= t < m * last,
                0 <= last,
        ;
        lemma_cell_of(t, m, last);
        let (c, row) = cell_of(t, last);
        let (d, s) = to(c, row);
        lemma_labelled_place(own, a.cells, m, last, d, s);
        lemma_labelled_place(image, a.cells, m, last, c, row);
        lemma_cell_at(d, s, last);
    }
    assert forall|t: int| 0 <= t < x.len() implies 0 <= #[trigger] undone(t) < x.len() && forth(
        undone(t),
    ) == t by {
        assert(last > 0) by (nonlinear_arith)
            requires
                0 <= t < m * last,
                0 <= last,
        ;
        lemma_cell_of(t, m, last);
        let (c, row) = cell_of(t, last);
        let (d, s) = back(c, row);
        lemma_labelled_place(own, a.cells, m, last, d, s);
        lemma_cell_at(d, s, last);
    }
    lemma_rearranged(x, y, forth, undone);
}

/// Row by row, the product over the columns `from..to`.
spec fn row_products(
    p: nat,
    g: spec_fn(int, int) -> nat,
    from: int,
    to: int,
    last: int,
) -> Seq<nat> {
    Seq::new(
        last as nat,
        |row: int| product(p, Seq::new((to - from) as nat, |c: int| g(from + c, row))),
    )
}

/// Column by column, the product over the rows above `last`.
spec fn column_products(
    p: nat,
    g: spec_fn(int, int) -> nat,
    from: int,
    to: int,
    last: int,
) -> Seq<nat> {
    Seq::new(
        (to - from) as nat,
        |c: int| product(p, Seq::new(last as nat, |row: int| g(from + c, row))),
    )
}

/// A block of factors has the same product by rows and by columns.
proof fn lemma_rows_and_columns(
    p: nat,
    g: spec_fn(int, int) -> nat,
    from: int,
    to: int,
    last: int,
)
    requires
        p > 1,
        from <= to,
        0 <= last,
    ensures
        product(p, row_products(p, g, from, to, last)) == product(
            p,
            column_products(p, g, from, to, last),
        ),
    decreases to - from,
{
    lemma_small_mod(1, p);
    let rows = row_products(p, g, from, to, last);
    if to == from {
        assert forall|row: int| 0 <= row < last implies #[trigger] rows[row] == 1 by {
            assert(product(p, Seq::new(0nat, |c: int| g(from + c, row))) == 1);
        }
        assert(rows =~= Seq::new(last as nat, |i: int| 1nat));
        lemma_product_of_ones(p, last as nat);
    } else {
        lemma_rows_and_columns(p, g, from, to - 1, last);
        let before = row_products(p, g, from, to - 1, last);
        let column = Seq::new(last as nat, |row: int| g(to - 1, row));
        assert forall|row: int| 0 <= row < last implies #[trigger] rows[row] == mul_mod(
            p,
            before[row],
            column[row],
        ) by {
            let so_far = Seq::new((to - 1 - from) as nat, |c: int| g(from + c, row));
            assert(Seq::new((to - from) as nat, |c: int| g(from + c, row)) =~= so_far.push(
                g(to - 1, row),
            ));
            lemma_product_push(p, so_far, g(to - 1, row));
        }
        lemma_product_pairwise(p, before, column, rows);
        let columns = column_products(p, g, from, to - 1, last);
        assert(Seq::new(last as nat, |row: int| g(from + (to - 1 - from), row)) =~= column);
        assert(column_products(p, g, from, to, last) =~= columns.push(product(p, column)));
        lemma_product_push(p, columns, product(p, column));
    }
}

/// The product over labelled cells, column by column.
proof fn lemma_labelled_product(
    a: Argument,
    label: spec_fn(int, int) -> nat,
    g: spec_fn(int, int) -> nat,
    n: int,
    last: int,
)
    requires
        a.p > 1,
        0 <= n,
        0 <= last,
        forall|c: int, row: int|
            0 <= c < n && 0 <= row < last ==> #[trigger] g(c, row) == cell_term(
                a.p,
                a.beta,
                a.gamma,
                label(c, row),
                a.cells[c][row],
            ),
    ensures
        product(a.p, column_products(a.p, g, 0, n, last)) == product(
            a.p,
            labelled(label, a.cells, n, last).map_values(
                |x: (nat, nat)| cell_term(a.p, a.beta, a.gamma, x.0, x.1),
            ),
        ),
    decreases n,
{
    let f = |x: (nat, nat)| cell_term(a.p, a.beta, a.gamma, x.0, x.1);
    if n > 0 {
        lemma_labelled_product(a, label, g, n - 1, last);
        let before = labelled(label, a.cells, n - 1, last);
        let pairs = Seq::new(last as nat, |row: int| (label(n - 1, row), a.cells[n - 1][row]));
        let column = Seq::new(last as nat, |row: int| g(n - 1, row));
        assert forall|row: int| 0 <= row < last implies #[trigger] pairs.map_values(f)[row]
            == column[row] by {
            assert(g(n - 1, row) == f(pairs[row]));
        }
        assert(pairs.map_values(f) =~= column);
        assert((before + pairs).map_values(f) =~= before.map_values(f) + column);
        lemma_product_concat(a.p, before.map_values(f), column);
        let columns = column_products(a.p, g, 0, n - 1, last);
        assert(Seq::new(last as nat, |row: int| g(0 + (n - 1), row)) =~= column);
        assert(column_products(a.p, g, 0, n, last) =~= columns.push(product(a.p, column)));
        lemma_product_push(a.p, columns, product(a.p, column));
    } else {
        assert(column_products(a.p, g, 0, n, last) =~= Seq::empty());
        assert(labelled(label, a.cells, n, last).map_values(f) =~= Seq::empty());
    }
}

/// Up to chunk `j`, the product that has accumulated is the ratio of the products over all cells
/// passed; the product of the denominators has an inverse, which is returned.
proof fn lemma_accumulated(a: Argument, chunk_len: int, last: int, j: int) -> (inverse: nat)
    requires
        a.valid(),
        chunk_len > 0,
        0 <= j,
        0 <= last <= a.size,
        forall|i: int, row: int|
            0 <= i < j && 0 <= row < last ==> mul_mod(
                a.p,
                #[trigger] a.chunk_denominators(chunk_len, i)[row],
                inv_mod(a.p, a.chunk_denominators(chunk_len, i)[row]),
            ) == 1,
    ensures
        a.start(chunk_len, last, j) < a.p,
        mul_mod(
            a.p,
            a.start(chunk_len, last, j),
            product(
                a.p,
                column_products(
                    a.p,
                    |c: int, row: int| a.denominator(c, row),
                    0,
                    a.bound(chunk_len, j),
                    last,
                ),
            ),
        ) == product(
            a.p,
            column_products(
                a.p,
                |c: int, row: int| a.numerator(c, row),
                0,
                a.bound(chunk_len, j),
                last,
            ),
        ),
        mul_mod(
            a.p,
            product(
                a.p,
                column_products(
                    a.p,
                    |c: int, row: int| a.denominator(c, row),
                    0,
                    a.bound(chunk_len, j),
                    last,
                ),
            ),
            inverse,
        ) == 1,
    decreases j,
{
    let p = a.p;
    let num = |c: int, row: int| a.numerator(c, row);
    let den = |c: int, row: int| a.denominator(c, row);
    lemma_mul_one(p, 1);
    if j == 0 {
        assert(0 * chunk_len == 0) by (nonlinear_arith);
        assert(column_products(p, num, 0, a.bound(chunk_len, 0), last) =~= Seq::empty());
        assert(column_products(p, den, 0, a.bound(chunk_len, 0), last) =~= Seq::empty());
        1
    } else {
        let inverse = lemma_accumulated(a, chunk_len, last, j - 1);
        let (from, to) = (a.bound(chunk_len, j - 1), a.bound(chunk_len, j));
        assert(0 <= from <= to) by (nonlinear_arith)
            requires
                chunk_len > 0,
                j > 0,
                from == if (j - 1) * chunk_len < a.cells.len() {
                    (j - 1) * chunk_len
                } else {
                    a.cells.len() as int
                },
                to == if j * chunk_len < a.cells.len() {
                    j * chunk_len
                } else {
                    a.cells.len() as int
                },
        ;
        let before = a.start(chunk_len, last, j - 1);
        let all = a.chunk_ratios(chunk_len, j - 1);
        let nums = a.numerators(from, to).take(last);
        let dens = a.denominators(from, to).take(last);
        lemma_running(p, before, all, last);
        assert forall|row: int| 0 <= row < last implies mul_mod(
            p,
            #[trigger] dens[row],
            inv_mod(p, dens[row]),
        ) == 1 by {
            assert(a.chunk_denominators(chunk_len, j - 1)[row] == dens[row]);
        }
        let step_inverse = lemma_ratio_product(p, dens, nums, all.take(last));
        assert forall|row: int| 0 <= row < last implies nums[row] == #[trigger] row_products(
            p,
            num,
            from,
            to,
            last,
        )[row] by {
            assert(a.numerators_in(from, to, row) =~= Seq::new(
                (to - from) as nat,
                |c: int| num(from + c, row),
            ));
        }
        assert forall|row: int| 0 <= row < last implies dens[row] == #[trigger] row_products(
            p,
            den,
            from,
            to,
            last,
        )[row] by {
            assert(a.denominators_in(from, to, row) =~= Seq::new(
                (to - from) as nat,
                |c: int| den(from + c, row),
            ));
        }
        assert(nums =~= row_products(p, num, from, to, last));
        assert(dens =~= row_products(p, den, from, to, last));
        lemma_rows_and_columns(p, num, from, to, last);
        lemma_rows_and_columns(p, den, from, to, last);
        lemma_columns_split(p, num, from, to, last);
        lemma_columns_split(p, den, from, to, last);
        let ratio = product(p, all.take(last));
        let passed = product(p, column_products(p, den, 0, from, last));
        let step = product(p, dens);
        lemma_mul_swap(p, before, ratio, passed, step);
        lemma_mul_swap(p, passed, step, inverse, step_inverse);
        mul_mod(p, inverse, step_inverse)
    }
}

proof fn lemma_columns_split(
    p: nat,
    g: spec_fn(int, int) -> nat,
    from: int,
    to: int,
    last: int,
)
    requires
        p > 1,
        0 <= from <= to,
    ensures
        product(p, column_products(p, g, 0, to, last)) == mul_mod(
            p,
            product(p, column_products(p, g, 0, from, last)),
            product(p, column_products(p, g, from, to, last)),
        ),
{
    let (left, right) = (
        column_products(p, g, 0, from, last),
        column_products(p, g, from, to, last),
    );
    let whole = column_products(p, g, 0, to, last);
    assert forall|c: int| 0 <= c < whole.len() implies whole[c] == #[trigger] (left + right)[c] by {
        if c >= from {
            assert(Seq::new(last as nat, |row: int| g(0 + c, row)) =~= Seq::new(
                last as nat,
                |row: int| g(from + (c - from), row),
            ));
        }
    }
    assert(whole =~= left + right);
    lemma_product_concat(p, left, right);
}

/// Law of the permutation argument: where the cells above row `last` respect the mapping, and no
/// denominator of these rows is without an inverse, the product has come back to one in row `last`
/// of the last chunk.
pub proof fn lemma_permutation_closes(a: Argument, chunk_len: int, last: int, chunks: int)
    requires
        a.valid(),
        chunk_len > 0,
        0 <= chunks,
        a.cells.len() <= chunks * chunk_len,
        0 <= last <= a.size,
        a.respected(last),
        forall|i: int, row: int|
            0 <= i < chunks && 0 <= row < last ==> mul_mod(
                a.p,
                #[trigger] a.chunk_denominators(chunk_len, i)[row],
                inv_mod(a.p, a.chunk_denominators(chunk_len, i)[row]),
            ) == 1,
    ensures
        a.start(chunk_len, last, chunks) == 1,
{
    let p = a.p;
    let m = a.cells.len() as int;
    let own = |c: int, row: int| a.label(c, row);
    let image = |c: int, row: int| a.images[c][row];
    let num = |c: int, row: int| a.numerator(c, row);
    let den = |c: int, row: int| a.denominator(c, row);
    let f = |x: (nat, nat)| cell_term(a.p, a.beta, a.gamma, x.0, x.1);
    let inverse = lemma_accumulated(a, chunk_len, last, chunks);
    lemma_labelled_product(a, own, num, m, last);
    lemma_labelled_product(a, image, den, m, last);
    let (x, y) = (labelled(own, a.cells, m, last), labelled(image, a.cells, m, last));
    lemma_map_permutation(y, x, f);
    lemma_product_permutation(p, y.map_values(f), x.map_values(f));
    let d = product(p, column_products(p, den, 0, m, last));
    lemma_product_bound(p, column_products(p, den, 0, m, last));
    lemma_mul_one(p, d);
    lemma_cancel(p, a.start(chunk_len, last, chunks), 1, d, inverse);
}

/// Law of the chunks: the first product starts at one, and each other where the one before it
/// ended.
pub proof fn lemma_products_hand_over(a: Argument, chunk_len: int, last: int, j: int)
    requires
        0 <= last < a.size,
        0 <= j,
    ensures
        a.product_column(chunk_len, last, 0)[0] == 1,
        a.product_column(chunk_len, last, j + 1)[0] == a.product_column(chunk_len, last, j)[last],
{
}

/// `z` are the product columns of an argument, one for each chunk of columns. They balance from row
/// to row wherever the denominator is not zero, and the last of them is back at one in row `last`
/// where the columns respect the mapping.
pub open spec fn is_product<F: PrimeField>(
    a: Argument,
    chunk_len: int,
    last: int,
    z: Seq<Vec<F>>,
) -> bool {
    &&& (z.len() - 1) * chunk_len < a.cells.len() <= z.len() * chunk_len
    &&& forall|j: int|
        0 <= j < z.len() ==> values((#[trigger] z[j])@) == a.product_column(chunk_len, last, j)
    &&& forall|j: int, i: int|
        0 <= j < z.len() && 0 <= i < last && a.chunk_denominators(chunk_len, j)[i] != 0
            ==> #[trigger] balances(
            a.p,
            values(z[j]@),
            a.chunk_numerators(chunk_len, j),
            a.chunk_denominators(chunk_len, j),
            i,
        )
    &&& forall|j: int|
        0 <= j < z.len() ==> nonzero_have_inverses(
            a.p,
            #[trigger] a.chunk_denominators(chunk_len, j),
        )
    &&& a.respected(last) && z.len() > 0 && (forall|j: int|
        0 <= j < z.len() ==> nonzero_rows(#[trigger] a.chunk_denominators(chunk_len, j), last))
        ==> values(z.last()@)[last] == 1
}

/// The argument over borrowed columns.
pub open spec fn argument<F: PrimeField>(
    beta: F,
    gamma: F,
    omega: F,
    size: usize,
    cells: Seq<&[F]>,
    images: Seq<&[F]>,
) -> Argument {
    Argument {
        p: F::modulus(),
        beta: beta.value(),
        gamma: gamma.value(),
        delta: F::delta_value(),
        omega: omega.value(),
        size: size as nat,
        cells: slices(cells),
        images: slices(images),
    }
}

/// Splits `count` columns into chunks of `chunk_len`, the last of which may be shorter.
fn chunk_bounds(count: usize, chunk_len: usize) -> (r: Vec<(usize, usize)>)
    requires
        chunk_len > 0,
    ensures
        (r@.len() - 1) * chunk_len < count <= r@.len() * chunk_len,
        forall|j: int|
            0 <= j < r@.len() ==> (#[trigger] r@[j]).0 == j * chunk_len && r@[j].0 < r@[j].1
                && r@[j].1 == if (j + 1) * chunk_len < count {
                (j + 1) * chunk_len
            } else {
                count as int
            },
{
    let mut r: Vec<(usize, usize)> = Vec::new();
    let mut from: usize = 0;
    assert((0 - 1) * chunk_len < count) by (nonlinear_arith)
        requires
            chunk_len > 0,
    ;
    assert(0 * chunk_len == 0) by (nonlinear_arith);
    while from < count
        invariant
            chunk_len > 0,
            from <= count,
            from == if r@.len() * chunk_len < count {
                r@.len() * chunk_len
            } else {
                count as int
            },
            (r@.len() - 1) * chunk_len < count,
            forall|j: int|
                0 <= j < r@.len() ==> (#[trigger] r@[j]).0 == j * chunk_len && r@[j].0 < r@[j].1
                    && r@[j].1 == if (j + 1) * chunk_len < count {
                    (j + 1) * chunk_len
                } else {
                    count as int
                },
        decreases count - from,
    {
        let ghost n = r@.len() as int;
        let to: usize = if count - from <= chunk_len {
            count
        } else {
            from + chunk_len
        };
        assert((n + 1) * chunk_len == n * chunk_len + chunk_len) by (nonlinear_arith);
        r.push((from, to));
        from = to;
    }
    r
}

/// The ratios that the columns `from..to` contribute, row by row.
fn column_ratios<F: PrimeField>(
    beta: F,
    gamma: F,
    omega: F,
    size: usize,
    cells: &Vec<&[F]>,
    images: &Vec<&[F]>,
    from: usize,
    to: usize,
) -> (r: Vec<F>)
    requires
        argument(beta, gamma, omega, size, cells@, images@).valid(),
        from <= to <= cells@.len(),
    ensures
        values(r@) == argument(beta, gamma, omega, size, cells@, images@).ratios(
            from as int,
            to as int,
        ),
        nonzero_have_inverses(
            F::modulus(),
            argument(beta, gamma, omega, size, cells@, images@).denominators(
                from as int,
                to as int,
            ),
        ),
{
    let ghost a = argument(beta, gamma, omega, size, cells@, images@);
    let ghost p = a.p;
    let one = F::one();
    let mut r = repeat(one, size);
    proof {
        lemma_small_mod(1, p);
        assert forall|row: int| 0 <= row < size implies (#[trigger] r@[row]).value() == product(
            p,
            a.denominators_in(from as int, from as int, row),
        ) by {
            assert(r@[row] == one);
        }
    }
    for c in from..to
        invariant
            a == argument(beta, gamma, omega, size, cells@, images@),
            a.valid(),
            p == a.p,
            from <= to <= cells@.len(),
            r@.len() == size,
            forall|row: int|
                0 <= row < size ==> (#[trigger] r@[row]).value() == product(
                    p,
                    a.denominators_in(from as int, c as int, row),
                ),
    {
        let ghost before = r@;
        assert(a.cells[c as int].len() == size);
        for row in 0..size
            invariant
                a == argument(beta, gamma, omega, size, cells@, images@),
                p == a.p,
                from <= c < to <= cells@.len(),
                images@.len() == cells@.len(),
                cells@[c as int]@.len() == size,
                images@[c as int]@.len() == size,
                r@.len() == size,
                before.len() == size,
                forall|k: int|
                    0 <= k < size ==> (#[trigger] before[k]).value() == product(
                        p,
                        a.denominators_in(from as int, c as int, k),
                    ),
                forall|k: int|
                    0 <= k < row ==> (#[trigger] r@[k]).value() == product(
                        p,
                        a.denominators_in(from as int, c as int + 1, k),
                    ),
                forall|k: int| row <= k < size ==> #[trigger] r@[k] == before[k],
        {
            let term = beta.mul(images[c][row]).add(gamma).add(cells[c][row]);
            proof {
                let so_far = a.denominators_in(from as int, c as int, row as int);
                assert(a.denominators_in(from as int, c as int + 1, row as int) =~= so_far.push(
                    a.denominator(c as int, row as int),
                ));
                lemma_product_push(p, so_far, a.denominator(c as int, row as int));
                assert(term.value() == a.denominator(c as int, row as int));
            }
            r[row] = r[row].mul(term);
        }
    }
    let ghost denominators = r@;
    F::batch_invert(&mut r);
    proof {
        assert forall|row: int| 0 <= row < size implies (#[trigger] r@[row]).value() == mul_mod(
            p,
            inv_mod(p, a.denominators(from as int, to as int)[row]),
            product(p, a.numerators_in(from as int, from as int, row)),
        ) by {
            let d = a.denominators(from as int, to as int)[row];
            assert(denominators[row].value() == d);
            lemma_inverse_unique(p, d, r@[row].value());
            lemma_mul_one(p, r@[row].value());
        }
        let all = a.denominators(from as int, to as int);
        assert forall|row: int| 0 <= row < all.len() && all[row] != 0 implies mul_mod(
            p,
            #[trigger] all[row],
            inv_mod(p, all[row]),
        ) == 1 by {
            assert(denominators[row].value() == all[row]);
            denominators[row].lemma_value();
            lemma_inverse_unique(p, all[row], r@[row].value());
            lemma_small_mod(all[row], p);
        }
    }
    let mut start = F::delta().pow(from as u64);
    for c in from..to
        invariant
            a == argument(beta, gamma, omega, size, cells@, images@),
            a.valid(),
            p == a.p,
            from <= to <= cells@.len(),
            r@.len() == size,
            start.value() == pow_mod(p, a.delta, c as nat),
            forall|row: int|
                0 <= row < size ==> (#[trigger] r@[row]).value() == mul_mod(
                    p,
                    inv_mod(p, a.denominators(from as int, to as int)[row]),
                    product(p, a.numerators_in(from as int, c as int, row)),
                ),
    {
        let ghost before = r@;
        assert(a.cells[c as int].len() == size);
        let mut label = start;
        proof {
            lemma_mul_one(p, start.value());
        }
        for row in 0..size
            invariant
                a == argument(beta, gamma, omega, size, cells@, images@),
                p == a.p,
                p > 1,
                from <= c < to <= cells@.len(),
                cells@[c as int]@.len() == size,
                r@.len() == size,
                before.len() == size,
                label.value() == a.label(c as int, row as int),
                forall|k: int|
                    0 <= k < size ==> (#[trigger] before[k]).value() == mul_mod(
                        p,
                        inv_mod(p, a.denominators(from as int, to as int)[k]),
                        product(p, a.numerators_in(from as int, c as int, k)),
                    ),
                forall|k: int|
                    0 <= k < row ==> (#[trigger] r@[k]).value() == mul_mod(
                        p,
                        inv_mod(p, a.denominators(from as int, to as int)[k]),
                        product(p, a.numerators_in(from as int, c as int + 1, k)),
                    ),
                forall|k: int| row <= k < size ==> #[trigger] r@[k] == before[k],
        {
            let term = label.mul(beta).add(gamma).add(cells[c][row]);
            proof {
                let so_far = a.numerators_in(from as int, c as int, row as int);
                let n = a.numerator(c as int, row as int);
                assert(a.numerators_in(from as int, c as int + 1, row as int) =~= so_far.push(n));
                lemma_product_push(p, so_far, n);
                lemma_mul_commutes(p, label.value(), a.beta);
                assert(term.value() == n);
                let e = inv_mod(p, a.denominators(from as int, to as int)[row as int]);
                lemma_mul_assoc(p, e, product(p, so_far), n);
                lemma_mul_assoc(
                    p,
                    pow_mod(p, a.delta, c as nat),
                    pow_mod(p, a.omega, row as nat),
                    a.omega,
                );
            }
            r[row] = r[row].mul(term);
            label = label.mul(omega);
        }
        start = start.mul(F::delta());
    }
    assert(values(r@) =~= a.ratios(from as int, to as int));
    r
}

/// The product columns of a permutation argument, one for each chunk of `chunk_len` columns.
///
/// Each column starts where the one before it ended, the first at one, and is zero below row
/// `unusable_rows_start`.
pub fn permutation_products<F: PrimeField>(
    beta: F,
    gamma: F,
    omega: F,
    size: usize,
    cells: &Vec<&[F]>,
    images: &Vec<&[F]>,
    chunk_len: usize,
    unusable_rows_start: usize,
) -> (r: Vec<Vec<F>>)
    requires
        argument(beta, gamma, omega, size, cells@, images@).valid(),
        chunk_len > 0,
        unusable_rows_start < size,
    ensures
        is_product(
            argument(beta, gamma, omega, size, cells@, images@),
            chunk_len as int,
            unusable_rows_start as int,
            r@,
        ),
{
    let ghost a = argument(beta, gamma, omega, size, cells@, images@);
    let bounds = chunk_bounds(cells.len(), chunk_len);
    let chunk = |j: usize| -> (column: Vec<F>)
        requires
            j < bounds@.len(),
        ensures
            values(column@) == argument(beta, gamma, omega, size, cells@, images@).ratios(
                bounds@[j as int].0 as int,
                bounds@[j as int].1 as int,
            ) && nonzero_have_inverses(
                F::modulus(),
                argument(beta, gamma, omega, size, cells@, images@).denominators(
                    bounds@[j as int].0 as int,
                    bounds@[j as int].1 as int,
                ),
            ),
    {
        let (from, to) = bounds[j];
        column_ratios(beta, gamma, omega, size, cells, images, from, to)
    };
    let mut r = map_indices(bounds.len(), chunk);
    let count: usize = r.len();
    let ghost unsummed = r@;
    proof {
        assert forall|j: int| 0 <= j < count implies values((#[trigger] unsummed[j])@)
            == a.chunk_ratios(chunk_len as int, j) && nonzero_have_inverses(
            F::modulus(),
            a.chunk_denominators(chunk_len as int, j),
        ) by {
            assert(bounds@[j].0 == a.bound(chunk_len as int, j));
            assert(bounds@[j].1 == a.bound(chunk_len as int, j + 1));
            assert(call_ensures(chunk, (j as usize,), unsummed[j]));
        }
    }
    let mut acc = F::one();
    for j in 0..count
        invariant
            a == argument(beta, gamma, omega, size, cells@, images@),
            unusable_rows_start < size,
            r@.len() == count,
            unsummed.len() == count,
            acc.value() == a.start(chunk_len as int, unusable_rows_start as int, j as int),
            forall|k: int|
                0 <= k < count ==> values((#[trigger] unsummed[k])@) == a.chunk_ratios(
                    chunk_len as int,
                    k,
                ),
            forall|k: int|
                0 <= k < j ==> values((#[trigger] r@[k])@) == a.product_column(
                    chunk_len as int,
                    unusable_rows_start as int,
                    k,
                ),
            forall|k: int| j <= k < count ==> #[trigger] r@[k] == unsummed[k],
    {
        assert(values(r@[j as int]@).len() == r@[j as int]@.len());
        acc = accumulate(&mut r[j], acc, unusable_rows_start);
    }
    proof {
        let last = unusable_rows_start as int;
        let len = chunk_len as int;
        assert forall|j: int| 0 <= j < count implies nonzero_have_inverses(
            a.p,
            #[trigger] a.chunk_denominators(len, j),
        ) by {
            assert(values(unsummed[j]@) == a.chunk_ratios(len, j));
        }
        assert forall|j: int, i: int|
            0 <= j < count && 0 <= i < last && a.chunk_denominators(len, j)[i]
                != 0 implies #[trigger] balances(
            a.p,
            values(r@[j]@),
            a.chunk_numerators(len, j),
            a.chunk_denominators(len, j),
            i,
        ) by {
            assert(nonzero_have_inverses(a.p, a.chunk_denominators(len, j))) by {
                assert(values(unsummed[j]@) == a.chunk_ratios(len, j));
            }
            lemma_running_balances(
                a.p,
                a.start(len, last, j),
                a.chunk_numerators(len, j),
                a.chunk_denominators(len, j),
                i,
            );
        }
        if a.respected(last) && (forall|j: int|
            0 <= j < count ==> nonzero_rows(#[trigger] a.chunk_denominators(len, j), last)) && count
            > 0 {
            assert forall|j: int, i: int| 0 <= j < count && 0 <= i < last implies mul_mod(
                a.p,
                #[trigger] a.chunk_denominators(len, j)[i],
                inv_mod(a.p, a.chunk_denominators(len, j)[i]),
            ) == 1 by {
                assert(values(unsummed[j]@) == a.chunk_ratios(len, j));
                assert(nonzero_rows(a.chunk_denominators(len, j), last));
            }
            lemma_permutation_closes(a, len, last, count as int);
        }
    }
    r
}

impl Argument {
    /// Law of the labels: the label of the first cell is one; a column further it is multiplied by
    /// `delta`, a row further by `omega`. So it is `delta^column omega^row`.
    pub proof fn lemma_labels(self, column: int, row: int)
        requires
            self.p > 1,
            0 <= column,
            0 <= row,
        ensures
            self.label(0, 0) == 1,
            self.label(column + 1, row) == (self.label(column, row) * self.delta) % self.p,
            self.label(column, row + 1) == (self.label(column, row) * self.omega) % self.p,
            self.label(column, row) == (pow(self.delta as int, column as nat) * pow(
                self.omega as int,
                row as nat,
            )) % self.p as int,
    {
        let p = self.p;
        let d = pow_mod(p, self.delta, column as nat);
        let w = pow_mod(p, self.omega, row as nat);
        lemma_mul_one(p, 1);
        lemma_small_mod(1, p);
        assert(pow_mod(p, self.delta, 0) == 1 && pow_mod(p, self.omega, 0) == 1);
        assert((column + 1) as nat - 1 == column);
        assert((row + 1) as nat - 1 == row);
        lemma_mul_assoc(p, d, self.delta, w);
        lemma_mul_commutes(p, self.delta, w);
        lemma_mul_assoc(p, d, w, self.delta);
        lemma_mul_assoc(p, d, w, self.omega);
        lemma_pow_is_power(p, self.delta, column as nat);
        lemma_pow_is_power(p, self.omega, row as nat);
        lemma_mul_mod_noop(
            pow(self.delta as int, column as nat),
            pow(self.omega as int, row as nat),
            p as int,
        );
    }

    /// The terms of some columns in a row multiply to the product of the integers that they are
    /// the residues of.
    proof fn lemma_row_products(self, from: int, to: int, row: int)
        requires
            self.p > 1,
            0 <= from <= to,
            0 <= row < self.size,
        ensures
            self.numerators(from, to)[row] == Seq::new(
                (to - from) as nat,
                |k: int|
                    self.beta * (pow(self.delta as int, (from + k) as nat) * pow(
                        self.omega as int,
                        row as nat,
                    )) + self.gamma + self.cells[from + k][row],
            ).fold_left(1int, |x: int, y: int| x * y) % self.p as int,
            self.denominators(from, to)[row] == Seq::new(
                (to - from) as nat,
                |k: int|
                    self.beta * (self.images[from + k][row] as int) + self.gamma + self.cells[from
                        + k][row],
            ).fold_left(1int, |x: int, y: int| x * y) % self.p as int,
    {
        let p = self.p;
        let num = self.numerators_in(from, to, row);
        let den = self.denominators_in(from, to, row);
        let raw_num = Seq::new(
            (to - from) as nat,
            |k: int|
                self.beta * (pow(self.delta as int, (from + k) as nat) * pow(
                    self.omega as int,
                    row as nat,
                )) + self.gamma + self.cells[from + k][row],
        );
        let raw_den = Seq::new(
            (to - from) as nat,
            |k: int|
                self.beta * (self.images[from + k][row] as int) + self.gamma + self.cells[from
                    + k][row],
        );
        assert forall|k: int| 0 <= k < num.len() implies (#[trigger] num[k]) as int % p as int
            == raw_num[k] % p as int by {
            self.lemma_labels(from + k, row);
            lemma_mod_twice(
                pow(self.delta as int, (from + k) as nat) * pow(self.omega as int, row as nat),
                p as int,
            );
            lemma_cell_term(
                p,
                self.beta,
                self.gamma,
                self.label(from + k, row),
                pow(self.delta as int, (from + k) as nat) * pow(self.omega as int, row as nat),
                self.cells[from + k][row],
            );
        }
        assert forall|k: int| 0 <= k < den.len() implies (#[trigger] den[k]) as int % p as int
            == raw_den[k] % p as int by {
            let label = self.images[from + k][row];
            lemma_cell_term(
                p,
                self.beta,
                self.gamma,
                label,
                label as int,
                self.cells[from + k][row],
            );
        }
        lemma_product_is_fold(p, num, raw_num);
        lemma_product_is_fold(p, den, raw_den);
    }
}

/// What a cell contributes is the residue of `beta label + gamma + v`.
proof fn lemma_cell_term(p: nat, beta: nat, gamma: nat, label: nat, raw: int, v: nat)
    requires
        p > 1,
        label as int % p as int == raw % p as int,
    ensures
        cell_term(p, beta, gamma, label, v) as int % p as int == (beta * raw + gamma + v)
            % p as int,
{
    let m = p as int;
    lemma_mul_mod_noop_right(beta as int, label as int, m);
    lemma_mul_mod_noop_right(beta as int, raw, m);
    let (x, y) = (beta * label as int, beta * raw);
    lemma_add_mod_noop(x, gamma as int, m);
    lemma_add_mod_noop(y, gamma as int, m);
    lemma_mod_twice(x, m);
    lemma_add_mod_noop(x % m, gamma as int, m);
    lemma_add_mod_noop(x + gamma, v as int, m);
    lemma_add_mod_noop(y + gamma, v as int, m);
    lemma_mod_twice(x + gamma, m);
    lemma_add_mod_noop((x + gamma) % m, v as int, m);
    lemma_mod_twice(x + gamma + v, m);
}

/// Law of the permutation products, in the challenges: each covers the next `chunk_len` columns,
/// the last what is left of them; from a row to the next it takes the product of `beta delta^column
/// omega^row + gamma + cell` over its columns in and that of `beta image + gamma + cell` out,
/// unless that is zero, in which case it drops to zero; below row `last` it is zero. Whatever is
/// taken out can be divided by: it has the returned inverse.
pub proof fn lemma_permutation_identity<F: PrimeField>(
    a: Argument,
    chunk_len: int,
    last: int,
    z: Seq<Vec<F>>,
    j: int,
    i: int,
) -> (inverse: nat)
    requires
        a.valid(),
        chunk_len > 0,
        0 <= last < a.size,
        is_product(a, chunk_len, last, z),
        0 <= j < z.len(),
        0 <= i < a.size,
    ensures
        ({
            let m = a.cells.len() as int;
            let from = j * chunk_len;
            let to = if from + chunk_len < m {
                from + chunk_len
            } else {
                m
            };
            let taken_in = Seq::new(
                (to - from) as nat,
                |k: int|
                    a.beta * (pow(a.delta as int, (from + k) as nat) * pow(
                        a.omega as int,
                        i as nat,
                    )) + a.gamma + a.cells[from + k][i],
            ).fold_left(1int, |x: int, y: int| x * y);
            let taken_out = Seq::new(
                (to - from) as nat,
                |k: int| a.beta * (a.images[from + k][i] as int) + a.gamma + a.cells[from + k][i],
            ).fold_left(1int, |x: int, y: int| x * y);
            &&& 0 <= from < to <= m
            &&& j + 1 == z.len() <==> to == m
            &&& z[j]@.len() == a.size
            &&& i < last && taken_out % a.p as int != 0 ==> (z[j]@[i + 1].value() * taken_out)
                % a.p as int == (z[j]@[i].value() * taken_in) % a.p as int
            &&& i < last && taken_out % a.p as int == 0 ==> z[j]@[i + 1].value() == 0
            &&& i > last ==> z[j]@[i].value() == 0
            &&& taken_out % a.p as int != 0 ==> (taken_out * inverse) % a.p as int == 1
        }),
{
    let p = a.p;
    let m = a.cells.len() as int;
    let n = z.len() as int;
    let from = j * chunk_len;
    let to = if from + chunk_len < m {
        from + chunk_len
    } else {
        m
    };
    assert((j + 1) * chunk_len == from + chunk_len) by (nonlinear_arith)
        requires
            from == j * chunk_len,
    ;
    assert(0 <= from < m && (j + 1 == n <==> m <= from + chunk_len)) by (nonlinear_arith)
        requires
            chunk_len > 0,
            0 <= j < n,
            from == j * chunk_len,
            (n - 1) * chunk_len < m <= n * chunk_len,
    ;
    assert(a.bound(chunk_len, j) == from);
    assert(a.bound(chunk_len, j + 1) == to);
    let numerators = a.chunk_numerators(chunk_len, j);
    let denominators = a.chunk_denominators(chunk_len, j);
    let all = a.chunk_ratios(chunk_len, j);
    a.lemma_row_products(from, to, i);
    let taken_in = Seq::new(
        (to - from) as nat,
        |k: int|
            a.beta * (pow(a.delta as int, (from + k) as nat) * pow(a.omega as int, i as nat))
                + a.gamma + a.cells[from + k][i],
    ).fold_left(1int, |x: int, y: int| x * y);
    let taken_out = Seq::new(
        (to - from) as nat,
        |k: int| a.beta * (a.images[from + k][i] as int) + a.gamma + a.cells[from + k][i],
    ).fold_left(1int, |x: int, y: int| x * y);
    assert(numerators[i] == taken_in % p as int);
    assert(denominators[i] == taken_out % p as int);
    let column = values(z[j]@);
    assert(column == a.product_column(chunk_len, last, j));
    assert(column.len() == z[j]@.len());
    lemma_product_column(p, a.start(chunk_len, last, j), all, last, i);
    lemma_mod_twice(taken_out, p as int);
    if i < last {
        assert(column[i] == z[j]@[i].value());
        assert(column[i + 1] == z[j]@[i + 1].value());
        lemma_mul_mod_noop_right(z[j]@[i + 1].value() as int, taken_out, p as int);
        lemma_mul_mod_noop_right(z[j]@[i].value() as int, taken_in, p as int);
        if taken_out % p as int != 0 {
            assert(balances(p, values(z[j]@), numerators, denominators, i));
        } else {
            lemma_ratios(p, numerators, denominators, i, 0);
            assert(column[i] * 0 == 0) by (nonlinear_arith);
            lemma_small_mod(0, p);
        }
    }
    if i > last {
        assert(column[i] == z[j]@[i].value());
    }
    if taken_out % p as int != 0 {
        assert(nonzero_have_inverses(p, a.chunk_denominators(chunk_len, j)));
        assert(mul_mod(p, denominators[i], inv_mod(p, denominators[i])) == 1);
        lemma_mul_mod_noop_left(taken_out, inv_mod(p, denominators[i]) as int, p as int);
    }
    inv_mod(p, denominators[i])
}

/// Law of the hand-over, on the columns themselves: the first starts at one, and each other where
/// the one before it ended.
pub proof fn lemma_permutation_starts<F: PrimeField>(
    a: Argument,
    chunk_len: int,
    last: int,
    z: Seq<Vec<F>>,
    j: int,
)
    requires
        0 <= last < a.size,
        is_product(a, chunk_len, last, z),
        0 <= j < z.len(),
    ensures
        z[0]@[0].value() == 1,
        j + 1 < z.len() ==> z[j + 1]@[0].value() == z[j]@[last].value(),
{
    lemma_products_hand_over(a, chunk_len, last, j);
    assert(values(z[0]@) == a.product_column(chunk_len, last, 0));
    assert(values(z[0]@)[0] == z[0]@[0].value());
    assert(values(z[j]@) == a.product_column(chunk_len, last, j));
    assert(values(z[j]@)[last] == z[j]@[last].value());
    if j + 1 < z.len() {
        assert(values(z[j + 1]@) == a.product_column(chunk_len, last, j + 1));
        assert(values(z[j + 1]@)[0] == z[j + 1]@[0].value());
    }
}

/// Law of the empty mapping: where every cell above row `last` is mapped to itself, and no
/// denominator is zero, every product is one down to row `last`.
pub proof fn lemma_nothing_copied<F: PrimeField>(
    a: Argument,
    chunk_len: int,
    last: int,
    z: Seq<Vec<F>>,
    j: int,
    i: int,
)
    requires
        a.valid(),
        chunk_len > 0,
        0 <= last < a.size,
        is_product(a, chunk_len, last, z),
        forall|c: int, row: int|
            0 <= c < a.cells.len() && 0 <= row < last ==> #[trigger] a.images[c][row] == (pow(
                a.delta as int,
                c as nat,
            ) * pow(a.omega as int, row as nat)) % a.p as int,
        forall|k: int|
            0 <= k < z.len() ==> nonzero_rows(#[trigger] a.chunk_denominators(chunk_len, k), last),
        0 <= j < z.len(),
        0 <= i <= last,
    ensures
        z[j]@[i].value() == 1,
    decreases j, i,
{
    let p = a.p;
    lemma_permutation_starts(a, chunk_len, last, z, 0);
    if i == 0 {
        if j > 0 {
            lemma_nothing_copied(a, chunk_len, last, z, j - 1, last);
            lemma_permutation_starts(a, chunk_len, last, z, j - 1);
        }
    } else {
        lemma_nothing_copied(a, chunk_len, last, z, j, i - 1);
        let row = i - 1;
        let (from, to) = (a.bound(chunk_len, j), a.bound(chunk_len, j + 1));
        assert(0 <= from <= to <= a.cells.len()) by (nonlinear_arith)
            requires
                chunk_len > 0,
                j >= 0,
                from == if j * chunk_len < a.cells.len() {
                    j * chunk_len
                } else {
                    a.cells.len() as int
                },
                to == if (j + 1) * chunk_len < a.cells.len() {
                    (j + 1) * chunk_len
                } else {
                    a.cells.len() as int
                },
        ;
        assert forall|k: int| 0 <= k < to - from implies #[trigger] a.numerators_in(
            from,
            to,
            row,
        )[k] == a.denominators_in(from, to, row)[k] by {
            a.lemma_labels(from + k, row);
            assert(a.images[from + k][row] == a.label(from + k, row));
        }
        assert(a.numerators_in(from, to, row) =~= a.denominators_in(from, to, row));
        let d = a.chunk_denominators(chunk_len, j)[row];
        assert(a.chunk_numerators(chunk_len, j)[row] == d);
        assert(nonzero_rows(a.chunk_denominators(chunk_len, j), last));
        assert(nonzero_have_inverses(p, a.chunk_denominators(chunk_len, j)));
        lemma_mul_commutes(p, d, inv_mod(p, d));
        let all = a.chunk_ratios(chunk_len, j);
        assert(all[row] == 1);
        lemma_product_column(p, a.start(chunk_len, last, j), all, last, row);
        assert(values(z[j]@) == a.product_column(chunk_len, last, j));
        assert(values(z[j]@)[row] == z[j]@[row].value());
        assert(values(z[j]@)[i] == z[j]@[i].value());
        lemma_mul_one(p, 1);
    }
}

/// Law of the borrowed arguments: the cells and the images are those of the columns, and the
/// challenges and generators those that were given.
pub proof fn lemma_argument<F: PrimeField>(
    beta: F,
    gamma: F,
    omega: F,
    size: usize,
    cells: Seq<&[F]>,
    images: Seq<&[F]>,
    c: int,
    row: int,
)
    ensures
        ({
            let a = argument(beta, gamma, omega, size, cells, images);
            &&& a.p == F::modulus()
            &&& a.beta == beta.value()
            &&& a.gamma == gamma.value()
            &&& a.delta == F::delta_value()
            &&& a.omega == omega.value()
            &&& a.size == size
            &&& a.cells.len() == cells.len()
            &&& a.images.len() == images.len()
            &&& 0 <= c < cells.len() ==> a.cells[c].len() == cells[c]@.len()
            &&& 0 <= c < images.len() ==> a.images[c].len() == images[c]@.len()
            &&& 0 <= c < cells.len() && 0 <= row < cells[c]@.len() ==> a.cells[c][row]
                == cells[c]@[row].value()
            &&& 0 <= c < images.len() && 0 <= row < images[c]@.len() ==> a.images[c][row]
                == images[c]@[row].value()
        }),
{
}

/// Law of the copies, on the columns themselves: where each cell above row `last` is mapped to one
/// of these cells with the same value, by a mapping that can be undone, and its image is
/// `delta^column omega^row` of the cell it is mapped to, the last product is back at one in row
/// `last`, unless a denominator is zero.
pub proof fn lemma_copies_close<F: PrimeField>(
    a: Argument,
    chunk_len: int,
    last: int,
    z: Seq<Vec<F>>,
    to: spec_fn(int, int) -> (int, int),
    back: spec_fn(int, int) -> (int, int),
)
    requires
        a.p > 1,
        0 <= last < a.size,
        is_product(a, chunk_len, last, z),
        z.len() > 0,
        forall|c: int, row: int|
            0 <= c < a.cells.len() && 0 <= row < last ==> {
                let (d, s) = #[trigger] to(c, row);
                &&& 0 <= d < a.cells.len() && 0 <= s < last
                &&& back(d, s) == (c, row)
                &&& a.images[c][row] == (pow(a.delta as int, d as nat) * pow(
                    a.omega as int,
                    s as nat,
                )) % a.p as int
                &&& a.cells[c][row] == a.cells[d][s]
            },
        forall|c: int, row: int|
            0 <= c < a.cells.len() && 0 <= row < last ==> {
                let (d, s) = #[trigger] back(c, row);
                &&& 0 <= d < a.cells.len() && 0 <= s < last
                &&& to(d, s) == (c, row)
            },
        forall|j: int|
            0 <= j < z.len() ==> nonzero_rows(#[trigger] a.chunk_denominators(chunk_len, j), last),
    ensures
        z.last()@[last].value() == 1,
{
    assert forall|c: int, row: int|
        0 <= c < a.cells.len() && 0 <= row < last implies ({
        let (d, s) = #[trigger] to(c, row);
        &&& 0 <= d < a.cells.len() && 0 <= s < last
        &&& back(d, s) == (c, row)
        &&& a.images[c][row] == a.label(d, s)
        &&& a.cells[c][row] == a.cells[d][s]
    }) by {
        let (d, s) = to(c, row);
        a.lemma_labels(d, s);
    }
    lemma_copies_are_respected(a, last, to, back);
    let j = z.len() - 1;
    assert(values(z[j]@) == a.product_column(chunk_len, last, j));
    assert(a.product_column(chunk_len, last, j).len() == a.size);
    assert(values(z[j]@).len() == z[j]@.len());
    assert(values(z[j]@)[last] == z[j]@[last].value());
}

} // verus!
